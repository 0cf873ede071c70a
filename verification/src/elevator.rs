//! The wide-string form of a Rust string, in the shape the Windows
//! shell-execution API expects: UTF-16 code units followed by a terminating
//! NUL. Only the encoding lives here; handing the raw pointer to an OS call
//! is platform glue outside the library.

use vstd::prelude::*;
use vstd::string::StrSliceExecFns;

verus! {

/// The UTF-16 code units of one character: a scalar below 0x10000 is one
/// unit; any other is a surrogate pair built from the scalar minus 0x10000,
/// its high ten bits added onto 0xD800 and its low ten bits onto 0xDC00.
pub open spec fn utf16_units(c: char) -> Seq<u16> {
    let v = c as u32;
    if v < 0x10000 {
        seq![v as u16]
    } else {
        seq![
            (0xD800 + ((v - 0x10000) / 0x400)) as u16,
            (0xDC00 + ((v - 0x10000) % 0x400)) as u16,
        ]
    }
}

/// The UTF-16 encoding of a string, character by character.
pub open spec fn utf16_of(s: Seq<char>) -> Seq<u16>
    decreases s.len(),
{
    if s.len() == 0 {
        Seq::empty()
    } else {
        utf16_units(s[0]) + utf16_of(s.skip(1))
    }
}

/// Encoding one more character appends exactly its units.
proof fn lemma_utf16_snoc(s: Seq<char>, c: char)
    ensures
        utf16_of(s.push(c)) == utf16_of(s) + utf16_units(c),
    decreases s.len(),
{
    if s.len() == 0 {
        assert(s.push(c)[0] == c);
        assert(s.push(c).skip(1) =~= Seq::<char>::empty());
        assert(utf16_of(s.push(c)) == utf16_units(c) + utf16_of(s.push(c).skip(1)));
        assert(utf16_of(s.push(c).skip(1)) == Seq::<u16>::empty());
        assert(utf16_of(s) == Seq::<u16>::empty());
        assert(utf16_of(s.push(c)) =~= utf16_of(s) + utf16_units(c));
    } else {
        assert(s.push(c)[0] == s[0]);
        assert(s.push(c).skip(1) =~= s.skip(1).push(c));
        lemma_utf16_snoc(s.skip(1), c);
        assert(utf16_of(s.push(c)) =~= utf16_of(s) + utf16_units(c));
    }
}

/// A string together with its NUL-terminated UTF-16 encoding.
pub struct WideString {
    pub source_string: String,
    bytes: Vec<u16>,
}

impl WideString {
    /// The encoded code units, terminating NUL last.
    pub closed spec fn units(&self) -> Seq<u16> {
        self.bytes@
    }

    /// The characters of the string that was encoded.
    pub closed spec fn source(&self) -> Seq<char> {
        self.source_string@
    }

    pub open spec fn wf(&self) -> bool {
        self.units() == utf16_of(self.source()) + seq![0u16]
    }

    pub fn new(str: String) -> (res: WideString)
        ensures
            res.wf(),
            res.source() == str@,
    {
        let n = str.as_str().unicode_len();
        let mut bytes: Vec<u16> = Vec::new();
        let mut i: usize = 0;
        proof {
            assert(str@.subrange(0, 0) =~= Seq::<char>::empty());
        }
        while i < n
            invariant
                i <= n,
                n == str@.len(),
                bytes@ == utf16_of(str@.subrange(0, i as int)),
            decreases n - i,
        {
            let c = str.as_str().get_char(i);
            proof {
                vstd::utf8::char_is_scalar(c);
            }
            let v = c as u32;
            if v < 0x10000 {
                bytes.push(v as u16);
            } else {
                let off = v - 0x10000;
                bytes.push((0xD800 + (off / 0x400)) as u16);
                bytes.push((0xDC00 + (off % 0x400)) as u16);
            }
            proof {
                assert(str@.subrange(0, i + 1) =~= str@.subrange(0, i as int).push(
                    str@[i as int],
                ));
                lemma_utf16_snoc(str@.subrange(0, i as int), str@[i as int]);
            }
            i = i + 1;
        }
        bytes.push(0);
        proof {
            assert(str@.subrange(0, n as int) =~= str@);
            assert(utf16_of(str@).push(0u16) =~= utf16_of(str@) + seq![0u16]);
        }
        WideString { bytes, source_string: str }
    }

    /// The encoded units as a plain vector, for the platform glue that
    /// ultimately hands a pointer to them to the OS.
    pub fn units_slice(&self) -> (r: &Vec<u16>)
        ensures
            r@ == self.units(),
    {
        &self.bytes
    }
}

} // verus!
