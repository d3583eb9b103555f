use vstd::prelude::*;

verus! {

/// A number of bits.
#[derive(PartialEq, Eq, Structural, Debug, Clone, Copy)]
pub struct BitCount(pub usize);

/// A bit pattern, such as a CRC polynomial.
#[derive(PartialEq, Eq, Structural, Debug, Clone, Copy)]
pub struct BitMap(pub usize);

/// A number of bytes.
#[derive(PartialEq, Eq, Structural, Debug, Clone, Copy)]
pub struct ByteCount(pub usize);

/// A number of channel symbols.
#[derive(PartialEq, Eq, Structural, Debug, Clone, Copy)]
pub struct SymbolCount(pub usize);

/// A repetition count.
#[derive(PartialEq, Eq, Structural, Debug, Clone, Copy)]
pub struct RepeatCount(pub usize);

/// An oversampling factor.
#[derive(PartialEq, Eq, Structural, Debug, Clone, Copy)]
pub struct OverSampleMultiplier(pub usize);

/// An index along the time axis of a waterfall.
#[derive(PartialEq, Eq, Structural, Debug, Clone, Copy)]
pub struct TimeIndex(pub usize);

/// An absolute time stamp counted in waterfall lines.
#[derive(PartialEq, Eq, Structural, Debug, Clone, Copy)]
pub struct TimeStamp(pub u32);

/// An index along the frequency axis of a waterfall.
#[derive(PartialEq, Eq, Structural, Debug, Clone, Copy)]
pub struct FreqIndex(pub usize);

/// Number of whole bytes needed to hold `bits` bits.
pub open spec fn spec_bytes_for(bits: nat) -> nat {
    if bits % 8 == 0 { bits / 8 } else { bits / 8 + 1 }
}

/// Number of whole bytes needed to hold the given number of bits (rounding up).
pub fn bits2bytes(bits: BitCount) -> (r: ByteCount)
    ensures
        r.0 == spec_bytes_for(bits.0 as nat),
        r.0 * 8 >= bits.0,
        r.0 * 8 < bits.0 + 8,
{
    if bits.0 % 8 == 0 {
        ByteCount(bits.0 / 8)
    } else {
        ByteCount(bits.0 / 8 + 1)
    }
}

} // verus!

verus! {

/// Parameters of the CRC that frames each payload.
#[derive(PartialEq, Eq, Structural, Debug, Clone, Copy)]
pub struct CrcParams {
    prepad: usize,
    width: u8,
    poly: u16,
    init: u16,
    xorout: u16,
    check: u16,
    residue: u16,
}

impl CrcParams {
    pub closed spec fn spec_prepad(self) -> usize { self.prepad }
    pub closed spec fn spec_width(self) -> u8 { self.width }
    pub closed spec fn spec_poly(self) -> u16 { self.poly }
    pub closed spec fn spec_init(self) -> u16 { self.init }
    pub closed spec fn spec_xorout(self) -> u16 { self.xorout }
    pub closed spec fn spec_check(self) -> u16 { self.check }
    pub closed spec fn spec_residue(self) -> u16 { self.residue }

    /// Builds CRC parameters; the width is kept in 8 bits and the polynomial in 16 bits.
    pub fn new(prepad: BitCount, poly: BitMap, width: BitCount, init: u16, xorout: u16) -> (r: CrcParams)
        ensures
            r.spec_prepad() == prepad.0,
            r.spec_width() == width.0 as u8,
            r.spec_poly() == poly.0 as u16,
            r.spec_init() == init,
            r.spec_xorout() == xorout,
            r.spec_check() == 0,
            r.spec_residue() == 0,
    {
        CrcParams {
            prepad: prepad.0,
            width: width.0 as u8,
            poly: poly.0 as u16,
            init,
            xorout,
            check: 0,
            residue: 0,
        }
    }

    /// Number of zero bits appended to the payload before the CRC is taken.
    pub fn prepad(&self) -> (r: usize)
        ensures r == self.spec_prepad(),
    {
        self.prepad
    }

    pub fn width(&self) -> (r: u8)
        ensures r == self.spec_width(),
    {
        self.width
    }

    pub fn poly(&self) -> (r: u16)
        ensures r == self.spec_poly(),
    {
        self.poly
    }

    pub fn init(&self) -> (r: u16)
        ensures r == self.spec_init(),
    {
        self.init
    }

    pub fn xorout(&self) -> (r: u16)
        ensures r == self.spec_xorout(),
    {
        self.xorout
    }

    pub fn check(&self) -> (r: u16)
        ensures r == self.spec_check(),
    {
        self.check
    }

    pub fn residue(&self) -> (r: u16)
        ensures r == self.spec_residue(),
    {
        self.residue
    }
}

/// Window applied to each block of samples before the FFT.
#[derive(PartialEq, Eq, Structural, Debug, Clone, Copy)]
pub enum WindowFunction {
    _Rect,
    _Hann,
    _Hamming,
    _Blackman,
}

/// Errors reported by the modem layers.
#[derive(Debug)]
#[non_exhaustive]
pub enum XxxError {
    _ToDo,
    _BadCrc,
    _BadEcc,
    _BadMsg,
    _DataIncomplete,
    _ErrorMessage(String),
    _ColNotFound(usize),
    _RowNotFound(usize),
    _IndexTooHigh(usize),
    _IndexTooLow(usize),
}

} // verus!
