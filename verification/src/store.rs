use vstd::prelude::*;

use crate::units::TimeStamp;

verus! {

/// A decoded message kept by the receiver: its codeword (which is also its
/// key), the waterfall time stamp at which it was found, whether it has been
/// handed out yet, and whatever further details the caller attaches.
#[derive(Debug)]
pub struct StoredMessage<T> {
    pub codeword: Vec<u8>,
    pub time_stamp: TimeStamp,
    pub delivered: bool,
    pub details: T,
}

/// What a stored message is: codeword, time stamp, delivered flag, details.
pub type MessageView<T> = (Seq<u8>, u32, bool, T);

/// The value of one stored message.
pub open spec fn message_view<T>(m: StoredMessage<T>) -> MessageView<T> {
    (m.codeword@, m.time_stamp.0, m.delivered, m.details)
}

/// No two messages share a codeword.
pub open spec fn keys_distinct<T>(s: Seq<MessageView<T>>) -> bool {
    forall|i: int, j: int| 0 <= i < j < s.len() ==> s[i].0 != s[j].0
}

/// Some message has the given codeword.
pub open spec fn holds_key<T>(s: Seq<MessageView<T>>, key: Seq<u8>) -> bool {
    exists|i: int| 0 <= i < s.len() && s[i].0 == key
}

/// A message found at `stamp` is stale once the waterfall's time base has
/// moved more than one whole frame (`frame_lines` waterfall lines) past it.
pub open spec fn is_stale(stamp: u32, time_base: u32, frame_lines: u32) -> bool {
    stamp + frame_lines < time_base
}

/// The messages not yet delivered, in store order, each marked delivered.
pub open spec fn pending<T>(s: Seq<MessageView<T>>) -> Seq<MessageView<T>>
    decreases s.len(),
{
    if s.len() == 0 {
        Seq::empty()
    } else {
        let e = s.last();
        if !e.2 {
            pending(s.drop_last()).push((e.0, e.1, true, e.3))
        } else {
            pending(s.drop_last())
        }
    }
}

/// The messages that are not stale, in store order, each marked delivered.
pub open spec fn retained<T>(s: Seq<MessageView<T>>, time_base: u32, frame_lines: u32) -> Seq<MessageView<T>>
    decreases s.len(),
{
    if s.len() == 0 {
        Seq::empty()
    } else {
        let e = s.last();
        if !is_stale(e.1, time_base, frame_lines) {
            retained(s.drop_last(), time_base, frame_lines).push((e.0, e.1, true, e.3))
        } else {
            retained(s.drop_last(), time_base, frame_lines)
        }
    }
}

/// Every stale message has already been delivered.
pub open spec fn stale_all_delivered<T>(s: Seq<MessageView<T>>, time_base: u32, frame_lines: u32) -> bool {
    forall|i: int| 0 <= i < s.len() && is_stale(s[i].1, time_base, frame_lines) ==> s[i].2
}

/// Every message is handed out once only: once the store has delivered and
/// expired, nothing it keeps is pending delivery again.
pub proof fn law_delivered_once<T>(s: Seq<MessageView<T>>, time_base: u32, frame_lines: u32)
    ensures
        pending(retained(s, time_base, frame_lines)) == Seq::<MessageView<T>>::empty(),
    decreases s.len(),
{
    if s.len() > 0 {
        law_delivered_once(s.drop_last(), time_base, frame_lines);
        let r = retained(s.drop_last(), time_base, frame_lines);
        let e = s.last();
        if !is_stale(e.1, time_base, frame_lines) {
            let pushed = r.push((e.0, e.1, true, e.3));
            assert(pushed.drop_last() =~= r);
            assert(pending(pushed) == pending(r));
        }
    }
}

/// A pending message carries a codeword that the store holds.
proof fn lemma_pending_keys<T>(s: Seq<MessageView<T>>, key: Seq<u8>)
    requires
        holds_key(pending(s), key),
    ensures
        holds_key(s, key),
    decreases s.len(),
{
    if s.len() > 0 {
        let rest = pending(s.drop_last());
        let e = s.last();
        if !e.2 {
            let i = choose|i: int| 0 <= i < pending(s).len() && pending(s)[i].0 == key;
            if i < rest.len() {
                assert(rest[i].0 == key);
                lemma_pending_keys(s.drop_last(), key);
                let j = choose|j: int| 0 <= j < s.drop_last().len() && s.drop_last()[j].0 == key;
                assert(s[j].0 == key);
            } else {
                assert(s[s.len() - 1].0 == key);
            }
        } else {
            lemma_pending_keys(s.drop_last(), key);
            let j = choose|j: int| 0 <= j < s.drop_last().len() && s.drop_last()[j].0 == key;
            assert(s[j].0 == key);
        }
    }
}

/// Handing out the messages of two stores one after the other hands out
/// those of each.
proof fn lemma_pending_append<T>(a: Seq<MessageView<T>>, b: Seq<MessageView<T>>)
    ensures
        pending(a + b) == pending(a) + pending(b),
    decreases b.len(),
{
    if b.len() == 0 {
        assert(a + b =~= a);
        assert(pending(a) + pending(b) =~= pending(a));
    } else {
        lemma_pending_append(a, b.drop_last());
        assert((a + b).drop_last() =~= a + b.drop_last());
        assert((a + b).last() == b.last());
        let e = b.last();
        if !e.2 {
            assert(pending(a) + pending(b.drop_last()).push((e.0, e.1, true, e.3))
                =~= (pending(a) + pending(b.drop_last())).push((e.0, e.1, true, e.3)));
        }
    }
}

/// The messages handed out together carry distinct codewords.
proof fn lemma_pending_distinct<T>(s: Seq<MessageView<T>>)
    requires
        keys_distinct(s),
    ensures
        keys_distinct(pending(s)),
    decreases s.len(),
{
    if s.len() > 0 {
        let d = s.drop_last();
        assert(keys_distinct(d));
        lemma_pending_distinct(d);
        let e = s.last();
        if !e.2 {
            let ps = pending(s);
            let pd = pending(d);
            assert forall|i: int, j: int| 0 <= i < j < ps.len() implies ps[i].0 != ps[j].0 by {
                if j == pd.len() {
                    assert(ps[i] == pd[i]);
                    if ps[i].0 == e.0 {
                        assert(holds_key(pd, e.0));
                        lemma_pending_keys(d, e.0);
                        let k = choose|k: int| 0 <= k < d.len() && d[k].0 == e.0;
                        assert(s[k].0 == s[s.len() - 1].0);
                    }
                } else {
                    assert(ps[i] == pd[i]);
                    assert(ps[j] == pd[j]);
                }
            }
        }
    }
}

/// Across rounds of decoding and delivery a message is handed out at most
/// once: after a delivery every message kept has been delivered, so the next
/// delivery hands out exactly the messages inserted since (which, the store
/// being well formed, carry codewords it did not hold), each once, and none
/// whose codeword the store kept from before. (A message dropped as stale is
/// no longer held; the same codeword decoded again is a new message.)
pub proof fn law_delivered_at_most_once<T>(
    s: Seq<MessageView<T>>,
    time_base: u32,
    frame_lines: u32,
    added: Seq<MessageView<T>>,
)
    requires
        keys_distinct(retained(s, time_base, frame_lines) + added),
    ensures
        pending(retained(s, time_base, frame_lines) + added) == pending(added),
        keys_distinct(pending(retained(s, time_base, frame_lines) + added)),
        forall|key: Seq<u8>| #[trigger] holds_key(retained(s, time_base, frame_lines), key)
            ==> !holds_key(pending(retained(s, time_base, frame_lines) + added), key),
{
    let r = retained(s, time_base, frame_lines);
    law_delivered_once(s, time_base, frame_lines);
    lemma_pending_append(r, added);
    assert(Seq::<MessageView<T>>::empty() + pending(added) =~= pending(added));
    lemma_pending_distinct(r + added);
    assert forall|key: Seq<u8>| #[trigger] holds_key(r, key) implies !holds_key(pending(r + added), key) by {
        if holds_key(pending(r + added), key) {
            lemma_pending_keys(added, key);
            let i = choose|i: int| 0 <= i < r.len() && r[i].0 == key;
            let j = choose|j: int| 0 <= j < added.len() && added[j].0 == key;
            assert((r + added)[i].0 == (r + added)[r.len() + j].0);
        }
    }
}

/// Where every stale message was delivered before, every message a delivery
/// hands out is kept by it.
proof fn lemma_pending_retained<T>(s: Seq<MessageView<T>>, time_base: u32, frame_lines: u32, key: Seq<u8>)
    requires
        stale_all_delivered(s, time_base, frame_lines),
        holds_key(pending(s), key),
    ensures
        holds_key(retained(s, time_base, frame_lines), key),
    decreases s.len(),
{
    if s.len() > 0 {
        let d = s.drop_last();
        let e = s.last();
        let r = retained(s, time_base, frame_lines);
        let rd = retained(d, time_base, frame_lines);
        assert(stale_all_delivered(d, time_base, frame_lines)) by {
            assert forall|i: int| 0 <= i < d.len() && is_stale(d[i].1, time_base, frame_lines) implies d[i].2 by {
                assert(d[i] == s[i]);
            }
        }
        if !is_stale(e.1, time_base, frame_lines) {
            assert(r == rd.push((e.0, e.1, true, e.3)));
        } else {
            assert(r == rd);
        }
        let pd = pending(d);
        if !e.2 {
            assert(s[s.len() - 1] == e);
            assert(!is_stale(e.1, time_base, frame_lines));
            let i = choose|i: int| 0 <= i < pending(s).len() && pending(s)[i].0 == key;
            if i < pd.len() {
                assert(pending(s)[i] == pd[i]);
                lemma_pending_retained(d, time_base, frame_lines, key);
                let j = choose|j: int| 0 <= j < rd.len() && rd[j].0 == key;
                assert(r[j] == rd[j]);
            } else {
                assert(r[rd.len() as int].0 == key);
            }
        } else {
            lemma_pending_retained(d, time_base, frame_lines, key);
            let j = choose|j: int| 0 <= j < rd.len() && rd[j].0 == key;
            assert(r[j] == rd[j]);
        }
    }
}

/// Over two consecutive deliveries, with messages inserted between them, no
/// codeword is handed out twice: where every stale message had been
/// delivered before the first (as `deliver_and_expire` requires), every
/// message it hands out is kept, so the second hands out none of them; and
/// the codewords of each delivery are distinct.
pub proof fn law_two_deliveries<T>(
    s: Seq<MessageView<T>>,
    time_base: u32,
    frame_lines: u32,
    added: Seq<MessageView<T>>,
)
    requires
        keys_distinct(s),
        stale_all_delivered(s, time_base, frame_lines),
        keys_distinct(retained(s, time_base, frame_lines) + added),
    ensures
        keys_distinct(pending(s)),
        keys_distinct(pending(retained(s, time_base, frame_lines) + added)),
        forall|key: Seq<u8>| #[trigger] holds_key(pending(s), key)
            ==> !holds_key(pending(retained(s, time_base, frame_lines) + added), key),
{
    lemma_pending_distinct(s);
    law_delivered_at_most_once(s, time_base, frame_lines, added);
    assert forall|key: Seq<u8>| #[trigger] holds_key(pending(s), key)
        implies !holds_key(pending(retained(s, time_base, frame_lines) + added), key) by {
        lemma_pending_retained(s, time_base, frame_lines, key);
    }
}

/// Message `m` is message `o` marked delivered: the same codeword, time
/// stamp and details.
pub open spec fn same_marked<T>(m: MessageView<T>, o: MessageView<T>) -> bool {
    m.0 == o.0 && m.1 == o.1 && m.2 && m.3 == o.3
}

/// What a delivery keeps and hands out is what the store held, only marked
/// delivered: every kept message is an old one with the same codeword, time
/// stamp and details, decoded no more than `frame_lines` lines before the
/// time base; every old message decoded within that span is kept; a message
/// decoded longer ago is no longer held. Every message handed out is an old
/// undelivered one with its codeword, time stamp and details.
pub proof fn law_delivery_keeps_messages<T>(s: Seq<MessageView<T>>, time_base: u32, frame_lines: u32)
    requires
        keys_distinct(s),
    ensures
        forall|j: int| 0 <= j < retained(s, time_base, frame_lines).len() ==> exists|i: int|
            0 <= i < s.len() && same_marked(#[trigger] retained(s, time_base, frame_lines)[j], s[i])
            && s[i].1 + frame_lines >= time_base,
        forall|i: int| 0 <= i < s.len() && s[i].1 + frame_lines >= time_base ==> exists|j: int|
            0 <= j < retained(s, time_base, frame_lines).len()
            && same_marked(retained(s, time_base, frame_lines)[j], #[trigger] s[i]),
        forall|i: int| 0 <= i < s.len() && s[i].1 + frame_lines < time_base
            ==> !holds_key(retained(s, time_base, frame_lines), #[trigger] s[i].0),
        forall|j: int| 0 <= j < pending(s).len() ==> exists|i: int|
            0 <= i < s.len() && same_marked(#[trigger] pending(s)[j], s[i]) && !s[i].2,
    decreases s.len(),
{
    if s.len() > 0 {
        let d = s.drop_last();
        let e = s.last();
        let n = s.len() - 1;
        assert(keys_distinct(d));
        law_delivery_keeps_messages(d, time_base, frame_lines);
        let rd = retained(d, time_base, frame_lines);
        let r = retained(s, time_base, frame_lines);
        let pd = pending(d);
        let ps = pending(s);
        assert(s[n] == e);
        if e.1 + frame_lines >= time_base {
            assert(r == rd.push((e.0, e.1, true, e.3)));
        } else {
            assert(r == rd);
        }
        if !e.2 {
            assert(ps == pd.push((e.0, e.1, true, e.3)));
        } else {
            assert(ps == pd);
        }
        assert forall|j: int| 0 <= j < r.len() implies exists|i: int|
            0 <= i < s.len() && same_marked(#[trigger] r[j], s[i]) && s[i].1 + frame_lines >= time_base by {
            if j < rd.len() {
                assert(r[j] == rd[j]);
                let i = choose|i: int| 0 <= i < d.len() && same_marked(#[trigger] rd[j], d[i])
                    && d[i].1 + frame_lines >= time_base;
                assert(s[i] == d[i]);
            } else {
                assert(same_marked(r[j], s[n]));
            }
        }
        assert forall|i: int| 0 <= i < s.len() && s[i].1 + frame_lines >= time_base implies exists|j: int|
            0 <= j < r.len() && same_marked(r[j], #[trigger] s[i]) by {
            if i < n {
                assert(s[i] == d[i]);
                let j = choose|j: int| 0 <= j < rd.len() && same_marked(rd[j], #[trigger] d[i]);
                assert(r[j] == rd[j]);
            } else {
                assert(same_marked(r[rd.len() as int], s[i]));
            }
        }
        assert forall|i: int| 0 <= i < s.len() && s[i].1 + frame_lines < time_base
            implies !holds_key(r, #[trigger] s[i].0) by {
            if holds_key(r, s[i].0) {
                let j = choose|j: int| 0 <= j < r.len() && r[j].0 == s[i].0;
                let i2 = choose|i2: int| 0 <= i2 < s.len() && same_marked(#[trigger] r[j], s[i2])
                    && s[i2].1 + frame_lines >= time_base;
                assert(s[i2].0 == s[i].0);
                assert(i2 != i);
            }
        }
        assert forall|j: int| 0 <= j < ps.len() implies exists|i: int|
            0 <= i < s.len() && same_marked(#[trigger] ps[j], s[i]) && !s[i].2 by {
            if j < pd.len() {
                assert(ps[j] == pd[j]);
                let i = choose|i: int| 0 <= i < d.len() && same_marked(#[trigger] pd[j], d[i]) && !d[i].2;
                assert(s[i] == d[i]);
            } else {
                assert(same_marked(ps[j], s[n]));
            }
        }
    }
}

/// The decoded messages of a receiver, each codeword at most once, in the
/// order in which they were first decoded.
#[derive(Debug)]
pub struct MessageStore<T> {
    entries: Vec<StoredMessage<T>>,
}

impl<T> View for MessageStore<T> {
    type V = Seq<MessageView<T>>;

    closed spec fn view(&self) -> Seq<MessageView<T>> {
        self.entries@.map_values(|m: StoredMessage<T>| message_view(m))
    }
}

/// Whether two byte strings are equal.
fn bytes_equal(a: &[u8], b: &[u8]) -> (r: bool)
    ensures
        r == (a@ == b@),
{
    if a.len() != b.len() {
        return false;
    }
    let mut i: usize = 0;
    while i < a.len()
        invariant
            a.len() == b.len(),
            i <= a.len(),
            forall|k: int| 0 <= k < i ==> a@[k] == b@[k],
        decreases a.len() - i,
    {
        if a[i] != b[i] {
            return false;
        }
        i = i + 1;
    }
    assert(a@ =~= b@);
    true
}

impl<T> MessageStore<T> {
    /// The store is well formed: no codeword is held twice.
    pub open spec fn wf(&self) -> bool {
        keys_distinct(self@)
    }

    /// An empty store.
    pub fn new() -> (r: MessageStore<T>)
        ensures
            r.wf(),
            r@ == Seq::<MessageView<T>>::empty(),
    {
        let r = MessageStore { entries: Vec::new() };
        assert(r@ =~= Seq::<MessageView<T>>::empty());
        r
    }

    /// The number of messages held.
    pub fn len(&self) -> (r: usize)
        ensures
            r == self@.len(),
    {
        self.entries.len()
    }

    /// The message at position `i`, in the order of first decoding.
    pub fn get(&self, i: usize) -> (r: &StoredMessage<T>)
        requires
            i < self@.len(),
        ensures
            message_view(*r) == self@[i as int],
    {
        &self.entries[i]
    }

    /// Whether a message with this codeword is held.
    pub fn contains(&self, codeword: &[u8]) -> (r: bool)
        ensures
            r == holds_key(self@, codeword@),
    {
        let mut i: usize = 0;
        while i < self.entries.len()
            invariant
                i <= self.entries@.len(),
                forall|k: int| 0 <= k < i ==> self@[k].0 != codeword@,
            decreases self.entries@.len() - i,
        {
            if bytes_equal(self.entries[i].codeword.as_slice(), codeword) {
                assert(self@[i as int].0 == codeword@);
                return true;
            }
            i = i + 1;
        }
        false
    }

    /// Keeps a newly decoded message unless its codeword is empty or already
    /// held; says whether it was kept. A kept message is not yet delivered.
    pub fn insert(&mut self, codeword: Vec<u8>, time_stamp: TimeStamp, details: T) -> (inserted: bool)
        requires
            old(self).wf(),
        ensures
            final(self).wf(),
            inserted == (codeword@.len() > 0 && !holds_key(old(self)@, codeword@)),
            inserted ==> final(self)@ == old(self)@.push((codeword@, time_stamp.0, false, details)),
            !inserted ==> final(self)@ == old(self)@,
    {
        if codeword.len() == 0 {
            return false;
        }
        if self.contains(codeword.as_slice()) {
            return false;
        }
        let ghost old_view = self@;
        let ghost key = codeword@;
        self.entries.push(StoredMessage { codeword, time_stamp, delivered: false, details });
        assert(self@ =~= old_view.push((key, time_stamp.0, false, details)));
        assert forall|i: int, j: int| 0 <= i < j < self@.len() implies self@[i].0 != self@[j].0 by {
            if j == old_view.len() {
                assert(old_view[i].0 != key);
            }
        }
        true
    }
}

impl<T: Copy> MessageStore<T> {
    /// Whether every stale message has been delivered already.
    pub fn stale_all_delivered(&self, time_base: TimeStamp, frame_lines: u32) -> (r: bool)
        ensures
            r == stale_all_delivered(self@, time_base.0, frame_lines),
    {
        let mut i: usize = 0;
        while i < self.entries.len()
            invariant
                i <= self.entries@.len(),
                forall|k: int| 0 <= k < i && is_stale(self@[k].1, time_base.0, frame_lines) ==> self@[k].2,
            decreases self.entries@.len() - i,
        {
            let m = &self.entries[i];
            assert(message_view(*m) == self@[i as int]);
            if (m.time_stamp.0 as u64) + (frame_lines as u64) < time_base.0 as u64 && !m.delivered {
                return false;
            }
            i = i + 1;
        }
        true
    }

    /// Hands out every message not delivered before (in the order of first
    /// decoding, marked delivered), keeps every message delivered, and drops
    /// those that have grown stale.
    pub fn deliver_and_expire(&mut self, time_base: TimeStamp, frame_lines: u32) -> (delivered: Vec<StoredMessage<T>>)
        requires
            old(self).wf(),
            stale_all_delivered(old(self)@, time_base.0, frame_lines),
        ensures
            final(self).wf(),
            delivered@.map_values(|m: StoredMessage<T>| message_view(m)) == pending(old(self)@),
            final(self)@ == retained(old(self)@, time_base.0, frame_lines),
    {
        let ghost s = self@;
        let mut out: Vec<StoredMessage<T>> = Vec::new();
        let mut kept: Vec<StoredMessage<T>> = Vec::new();
        let n = self.entries.len();
        let mut i: usize = 0;
        while i < n
            invariant
                n == self.entries@.len(),
                s == self@,
                keys_distinct(s),
                i <= n,
                out@.map_values(|m: StoredMessage<T>| message_view(m)) == pending(s.take(i as int)),
                kept@.map_values(|m: StoredMessage<T>| message_view(m)) == retained(s.take(i as int), time_base.0, frame_lines),
                forall|k: int| 0 <= k < kept@.len() ==> exists|j: int| 0 <= j < i && #[trigger] kept@[k].codeword@ == s[j].0,
                forall|k1: int, k2: int| 0 <= k1 < k2 < kept@.len() ==> kept@[k1].codeword@ != kept@[k2].codeword@,
            decreases n - i,
        {
            let m = &self.entries[i];
            assert(message_view(*m) == s[i as int]);
            assert(s.take(i as int + 1).drop_last() =~= s.take(i as int));
            assert(s.take(i as int + 1).last() == s[i as int]);
            let ghost out_before = out@;
            let ghost kept_before = kept@;
            if !m.delivered {
                let c = m.codeword.clone();
                assert(c@ =~= m.codeword@);
                out.push(StoredMessage { codeword: c, time_stamp: m.time_stamp, delivered: true, details: m.details });
                assert(out@.map_values(|m: StoredMessage<T>| message_view(m)) =~= out_before.map_values(
                    |m: StoredMessage<T>| message_view(m),
                ).push((s[i as int].0, s[i as int].1, true, s[i as int].3)));
            }
            if !((m.time_stamp.0 as u64) + (frame_lines as u64) < time_base.0 as u64) {
                let c = m.codeword.clone();
                assert(c@ =~= m.codeword@);
                kept.push(StoredMessage { codeword: c, time_stamp: m.time_stamp, delivered: true, details: m.details });
                assert(kept@.map_values(|m: StoredMessage<T>| message_view(m)) =~= kept_before.map_values(
                    |m: StoredMessage<T>| message_view(m),
                ).push((s[i as int].0, s[i as int].1, true, s[i as int].3)));
                assert forall|k: int| 0 <= k < kept@.len() implies exists|j: int| 0 <= j < i + 1 && #[trigger] kept@[k].codeword@ == s[j].0 by {
                    if k == kept_before.len() {
                        assert(kept@[k].codeword@ == s[i as int].0);
                    } else {
                        assert(kept@[k] == kept_before[k]);
                    }
                }
                assert forall|k1: int, k2: int| 0 <= k1 < k2 < kept@.len() implies kept@[k1].codeword@ != kept@[k2].codeword@ by {
                    if k2 == kept_before.len() {
                        assert(kept@[k1] == kept_before[k1]);
                        let j = choose|j: int| 0 <= j < i && #[trigger] kept_before[k1].codeword@ == s[j].0;
                        assert(s[j].0 != s[i as int].0);
                    } else {
                        assert(kept@[k1] == kept_before[k1]);
                        assert(kept@[k2] == kept_before[k2]);
                    }
                }
            }
            i = i + 1;
        }
        assert(s.take(n as int) =~= s);
        self.entries = kept;
        assert forall|k1: int, k2: int| 0 <= k1 < k2 < self@.len() implies self@[k1].0 != self@[k2].0 by {
            assert(self@[k1].0 == self.entries@[k1].codeword@);
            assert(self@[k2].0 == self.entries@[k2].codeword@);
        }
        out
    }
}

} // verus!
