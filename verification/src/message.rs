use vstd::prelude::*;

use crate::text::{chars_of, string_of};

verus! {

/// A decoded callsign, or a special token such as `CQ` when `special` is set.
#[derive(PartialEq, Debug, Clone)]
pub struct CallId {
    pub id: String,
    pub special: bool,
}

impl CallId {
    /// An empty callsign.
    pub fn new() -> (r: CallId)
        ensures
            r.id@ == Seq::<char>::empty(),
            !r.special,
    {
        CallId { id: String::new(), special: false }
    }

    /// A callsign with the given text.
    pub fn with_id(id: &[char], special: bool) -> (r: CallId)
        ensures
            r.id@ == id@,
            r.special == special,
    {
        CallId { id: string_of(id), special }
    }
}

/// A decoded message: the two callsigns and what follows them.
#[derive(Debug)]
pub struct Ft8Msg {
    pub call_to: CallId,
    pub call_from: CallId,
    pub extra: String,
}

/// A field followed by a space, or nothing for an empty field.
pub open spec fn spaced(s: Seq<char>) -> Seq<char> {
    if s.len() > 0 { s.push(' ') } else { Seq::empty() }
}

/// The text of a message: the callsigns, each followed by a space, then the rest.
pub open spec fn msg_text(to: Seq<char>, from: Seq<char>, extra: Seq<char>) -> Seq<char> {
    spaced(to) + spaced(from) + extra
}

impl Ft8Msg {
    /// A message with empty fields.
    pub fn new() -> (r: Ft8Msg)
        ensures
            r.call_to.id@ == Seq::<char>::empty(),
            r.call_from.id@ == Seq::<char>::empty(),
            r.extra@ == Seq::<char>::empty(),
            !r.call_to.special,
            !r.call_from.special,
    {
        Ft8Msg { call_to: CallId::new(), call_from: CallId::new(), extra: String::new() }
    }

    /// The message as text, or `None` when every field is empty.
    pub fn to_string(&self) -> (r: Option<String>)
        ensures
            match r {
                Some(s) => s@ == msg_text(self.call_to.id@, self.call_from.id@, self.extra@)
                    && s@.len() > 0,
                None => msg_text(self.call_to.id@, self.call_from.id@, self.extra@).len() == 0,
            },
    {
        let mut stg: Vec<char> = Vec::new();
        let mut to = chars_of(self.call_to.id.as_str());
        if to.len() > 0 {
            stg.append(&mut to);
            stg.push(' ');
        }
        let mut from = chars_of(self.call_from.id.as_str());
        if from.len() > 0 {
            stg.append(&mut from);
            stg.push(' ');
        }
        let mut extra = chars_of(self.extra.as_str());
        stg.append(&mut extra);
        assert(stg@ =~= msg_text(self.call_to.id@, self.call_from.id@, self.extra@));
        if stg.len() == 0 {
            None
        } else {
            Some(string_of(&stg))
        }
    }
}

} // verus!
