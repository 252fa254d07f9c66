//! The binary module ("library") image format, big-endian throughout:
//! a 3-byte magic (checked for presence only), a version byte that must be
//! one, 28 reserved bytes, then four section offsets (symbol table,
//! imports, exports, text). Each section is length-prefixed; the parser
//! validates every bound and never reads past the image.

use crate::errors::VmError;
use crate::value::Ptr;
use vstd::prelude::*;

verus! {

/// A path-like module name: its parts, each a byte string.
#[derive(Debug, PartialEq, Eq)]
pub struct LibName(pub Vec<Vec<u8>>);

impl Clone for LibName {
    /// Clones a module name part by part, preserving its view.
    fn clone(&self) -> (r: LibName)
        ensures
            name_view(r) == name_view(*self),
    {
        let mut parts: Vec<Vec<u8>> = Vec::new();
        let n = self.0.len();
        let mut i: usize = 0;
        while i < n
            invariant
                i <= n,
                n == self.0@.len(),
                parts@.len() == i,
                forall|k: int| 0 <= k < i ==> #[trigger] parts@[k]@ == self.0@[k]@,
            decreases n - i,
        {
            let part = self.0[i].clone();
            proof {
                assert(part@ =~= self.0@[i as int]@);
            }
            parts.push(part);
            i += 1;
        }
        let r = LibName(parts);
        proof {
            assert(name_view(r) =~= name_view(*self));
        }
        r
    }
}

/// Whether two module names read the same.
pub fn lib_name_eq(a: &LibName, b: &LibName) -> (r: bool)
    ensures
        r == (name_view(*a) == name_view(*b)),
{
    if a.0.len() != b.0.len() {
        proof {
            assert(name_view(*a).len() != name_view(*b).len());
        }
        return false;
    }
    let n = a.0.len();
    let mut i: usize = 0;
    while i < n
        invariant
            i <= n,
            n == a.0@.len(),
            n == b.0@.len(),
            forall|k: int| 0 <= k < i ==> #[trigger] a.0@[k]@ == b.0@[k]@,
        decreases n - i,
    {
        if !crate::heap::bytes_eq(&a.0[i], &b.0[i]) {
            proof {
                assert(name_view(*a)[i as int] != name_view(*b)[i as int]);
            }
            return false;
        }
        i += 1;
    }
    proof {
        assert(name_view(*a) =~= name_view(*b));
    }
    true
}

/// A module ready to link: everything its image encodes, plus the
/// runtime's view of it once registered.
#[derive(Debug)]
pub struct Library {
    pub name: LibName,
    pub prog: Vec<u8>,
    pub env: Ptr,
    pub imports: Vec<LibName>,
    pub sym_table: Vec<Ptr>,
    pub exports: u64,
}

/// A module image parsed but not yet linked: imports still by name,
/// symbols still plain byte strings.
#[derive(Debug)]
pub struct ParsedLibrary {
    pub imports: Vec<LibName>,
    pub symbols: Vec<Vec<u8>>,
    pub exports: u64,
    pub text: Vec<u8>,
}

/// The big-endian 64-bit number at offset `i`.
pub open spec fn be_u64_at(s: Seq<u8>, i: int) -> nat {
    s[i] as nat * 0x100_0000_0000_0000 + s[i + 1] as nat * 0x1_0000_0000_0000 + s[i + 2] as nat
        * 0x100_0000_0000 + s[i + 3] as nat * 0x1_0000_0000 + s[i + 4] as nat * 0x100_0000 + s[i
        + 5] as nat * 0x1_0000 + s[i + 6] as nat * 0x100 + s[i + 7] as nat
}

/// One length-prefixed byte string at `off`: the string and the offset
/// just past it, or nothing if it runs past the end of the image.
pub open spec fn parse_str(s: Seq<u8>, off: int) -> Option<(Seq<u8>, int)> {
    if 0 <= off && off + 8 <= s.len() {
        let n = be_u64_at(s, off) as int;
        if off + 8 + n <= s.len() {
            Some((s.subrange(off + 8, off + 8 + n), off + 8 + n))
        } else {
            None
        }
    } else {
        None
    }
}

/// `count` consecutive length-prefixed byte strings starting at `off`.
pub open spec fn parse_strs(s: Seq<u8>, off: int, count: nat) -> Option<(Seq<Seq<u8>>, int)>
    decreases count,
{
    if count == 0 {
        Some((Seq::empty(), off))
    } else {
        match parse_str(s, off) {
            Some(p) => match parse_strs(s, p.1, (count - 1) as nat) {
                Some(q) => Some((seq![p.0] + q.0, q.1)),
                None => None,
            },
            None => None,
        }
    }
}

/// One module name at `off`: a part count followed by that many
/// length-prefixed parts.
pub open spec fn parse_name(s: Seq<u8>, off: int) -> Option<(Seq<Seq<u8>>, int)> {
    if 0 <= off && off + 8 <= s.len() {
        parse_strs(s, off + 8, be_u64_at(s, off))
    } else {
        None
    }
}

/// `count` consecutive module names starting at `off`.
pub open spec fn parse_names(s: Seq<u8>, off: int, count: nat) -> Option<(Seq<Seq<Seq<u8>>>, int)>
    decreases count,
{
    if count == 0 {
        Some((Seq::empty(), off))
    } else {
        match parse_name(s, off) {
            Some(p) => match parse_names(s, p.1, (count - 1) as nat) {
                Some(q) => Some((seq![p.0] + q.0, q.1)),
                None => None,
            },
            None => None,
        }
    }
}

/// A successful string-list parse yields exactly `count` strings.
pub proof fn lemma_parse_strs_len(s: Seq<u8>, off: int, count: nat)
    requires
        parse_strs(s, off, count) is Some,
    ensures
        parse_strs(s, off, count)->Some_0.0.len() == count,
    decreases count,
{
    if count > 0 {
        let p = parse_str(s, off)->Some_0;
        lemma_parse_strs_len(s, p.1, (count - 1) as nat);
    }
}

/// A successful name-list parse yields exactly `count` names.
pub proof fn lemma_parse_names_len(s: Seq<u8>, off: int, count: nat)
    requires
        parse_names(s, off, count) is Some,
    ensures
        parse_names(s, off, count)->Some_0.0.len() == count,
    decreases count,
{
    if count > 0 {
        let p = parse_name(s, off)->Some_0;
        lemma_parse_names_len(s, p.1, (count - 1) as nat);
    }
}

/// The view of a parsed name: its parts as byte sequences.
pub open spec fn name_view(n: LibName) -> Seq<Seq<u8>> {
    Seq::new(n.0@.len(), |i: int| n.0@[i]@)
}

/// Appending one more string extends a string-list parse.
pub proof fn lemma_parse_strs_snoc(s: Seq<u8>, off: int, count: nat)
    requires
        parse_strs(s, off, count) is Some,
        parse_str(s, parse_strs(s, off, count)->Some_0.1) is Some,
    ensures
        parse_strs(s, off, count + 1) == Some(
            (
                parse_strs(s, off, count)->Some_0.0 + seq![
                    parse_str(s, parse_strs(s, off, count)->Some_0.1)->Some_0.0,
                ],
                parse_str(s, parse_strs(s, off, count)->Some_0.1)->Some_0.1,
            ),
        ),
    decreases count,
{
    if count == 0 {
        assert(parse_strs(s, off, 0) == Some((Seq::<Seq<u8>>::empty(), off)));
        let p = parse_str(s, off)->Some_0;
        assert(parse_strs(s, p.1, 0) == Some((Seq::<Seq<u8>>::empty(), p.1)));
        assert(parse_strs(s, off, 1) is Some);
        assert(parse_strs(s, off, 1)->Some_0.0 =~= parse_strs(s, off, 0)->Some_0.0 + seq![
            parse_str(s, off)->Some_0.0,
        ]);
    } else {
        let p = parse_str(s, off)->Some_0;
        lemma_parse_strs_snoc(s, p.1, (count - 1) as nat);
        assert(parse_strs(s, off, count + 1)->Some_0.0 =~= parse_strs(s, off, count)->Some_0.0
            + seq![parse_str(s, parse_strs(s, off, count)->Some_0.1)->Some_0.0]);
    }
}

/// Appending one more name extends a name-list parse.
pub proof fn lemma_parse_names_snoc(s: Seq<u8>, off: int, count: nat)
    requires
        parse_names(s, off, count) is Some,
        parse_name(s, parse_names(s, off, count)->Some_0.1) is Some,
    ensures
        parse_names(s, off, count + 1) == Some(
            (
                parse_names(s, off, count)->Some_0.0 + seq![
                    parse_name(s, parse_names(s, off, count)->Some_0.1)->Some_0.0,
                ],
                parse_name(s, parse_names(s, off, count)->Some_0.1)->Some_0.1,
            ),
        ),
    decreases count,
{
    if count == 0 {
        assert(parse_names(s, off, 0) == Some((Seq::<Seq<Seq<u8>>>::empty(), off)));
        let p = parse_name(s, off)->Some_0;
        assert(parse_names(s, p.1, 0) == Some((Seq::<Seq<Seq<u8>>>::empty(), p.1)));
        assert(parse_names(s, off, 1) is Some);
        assert(parse_names(s, off, 1)->Some_0.0 =~= parse_names(s, off, 0)->Some_0.0 + seq![
            parse_name(s, off)->Some_0.0,
        ]);
    } else {
        let p = parse_name(s, off)->Some_0;
        lemma_parse_names_snoc(s, p.1, (count - 1) as nat);
        assert(parse_names(s, off, count + 1)->Some_0.0 =~= parse_names(s, off, count)->Some_0.0
            + seq![parse_name(s, parse_names(s, off, count)->Some_0.1)->Some_0.0]);
    }
}

/// Reads the big-endian 64-bit number at `i`, validating the bound.
pub fn read_be_u64(bytes: &Vec<u8>, i: usize) -> (r: Result<u64, VmError>)
    ensures
        match r {
            Ok(v) => i + 8 <= bytes@.len() && v == be_u64_at(bytes@, i as int),
            Err(e) => e == VmError::ModuleLoadError && i + 8 > bytes@.len(),
        },
{
    if i >= bytes.len() || bytes.len() - i < 8 {
        return Err(VmError::ModuleLoadError);
    }
    let r = ((bytes[i] as u64) << 56) | ((bytes[i + 1] as u64) << 48) | ((bytes[i + 2] as u64)
        << 40) | ((bytes[i + 3] as u64) << 32) | ((bytes[i + 4] as u64) << 24) | ((bytes[i
        + 5] as u64) << 16) | ((bytes[i + 6] as u64) << 8) | (bytes[i + 7] as u64);
    proof {
        let b0 = bytes@[i as int];
        let b1 = bytes@[i as int + 1];
        let b2 = bytes@[i as int + 2];
        let b3 = bytes@[i as int + 3];
        let b4 = bytes@[i as int + 4];
        let b5 = bytes@[i as int + 5];
        let b6 = bytes@[i as int + 6];
        let b7 = bytes@[i as int + 7];
        assert(((b0 as u64) << 56) | ((b1 as u64) << 48) | ((b2 as u64) << 40) | ((b3 as u64)
            << 32) | ((b4 as u64) << 24) | ((b5 as u64) << 16) | ((b6 as u64) << 8) | (b7 as u64)
            == b0 as u64 * 0x100_0000_0000_0000 + b1 as u64 * 0x1_0000_0000_0000 + b2 as u64
            * 0x100_0000_0000 + b3 as u64 * 0x1_0000_0000 + b4 as u64 * 0x100_0000 + b5 as u64
            * 0x1_0000 + b6 as u64 * 0x100 + b7 as u64) by (bit_vector);
    }
    Ok(r)
}

/// Reads one length-prefixed byte string, validating every bound.
pub fn read_str(bytes: &Vec<u8>, off: usize) -> (r: Result<(Vec<u8>, usize), VmError>)
    ensures
        match r {
            Ok(p) => parse_str(bytes@, off as int) == Some((p.0@, p.1 as int)),
            Err(e) => e == VmError::ModuleLoadError && parse_str(bytes@, off as int) is None,
        },
        parse_str(bytes@, off as int) is Some ==> r is Ok,
{
    let n64 = match read_be_u64(bytes, off) {
        Ok(v) => v,
        Err(e) => {
            return Err(e);
        },
    };
    let rem = bytes.len() - (off + 8);
    if n64 > rem as u64 {
        proof {
            assert(off + 8 + be_u64_at(bytes@, off as int) > bytes@.len());
        }
        return Err(VmError::ModuleLoadError);
    }
    let n = n64 as usize;
    let mut out: Vec<u8> = Vec::new();
    let mut i: usize = 0;
    while i < n
        invariant
            i <= n,
            off + 8 + n <= bytes@.len(),
            bytes@.len() <= usize::MAX,
            out@.len() == i,
            forall|k: int| 0 <= k < i ==> out@[k] == bytes@[off + 8 + k],
        decreases n - i,
    {
        out.push(bytes[off + 8 + i]);
        i += 1;
    }
    proof {
        assert(out@ =~= bytes@.subrange(off + 8, off + 8 + n));
    }
    Ok((out, off + 8 + n))
}

/// Reads `count` length-prefixed byte strings.
pub fn read_strs(bytes: &Vec<u8>, off: usize, count: u64) -> (r: Result<
    (Vec<Vec<u8>>, usize),
    VmError,
>)
    ensures
        match r {
            Ok(p) => {
                &&& parse_strs(bytes@, off as int, count as nat) is Some
                &&& parse_strs(bytes@, off as int, count as nat)->Some_0.1 == p.1 as int
                &&& p.0@.len() == count
                &&& forall|k: int|
                    0 <= k < count ==> #[trigger] p.0@[k]@ == parse_strs(
                        bytes@,
                        off as int,
                        count as nat,
                    )->Some_0.0[k]
            },
            Err(e) => e == VmError::ModuleLoadError,
        },
        parse_strs(bytes@, off as int, count as nat) is Some ==> r is Ok,
{
    let mut out: Vec<Vec<u8>> = Vec::new();
    let mut cur = off;
    let mut i: u64 = 0;
    while i < count
        invariant
            i <= count,
            out@.len() == i,
            parse_strs(bytes@, off as int, i as nat) is Some,
            parse_strs(bytes@, off as int, i as nat)->Some_0.1 == cur as int,
            parse_strs(bytes@, off as int, count as nat) is Some ==> parse_strs(
                bytes@,
                cur as int,
                (count - i) as nat,
            ) is Some,
            forall|k: int|
                0 <= k < i ==> #[trigger] out@[k]@ == parse_strs(
                    bytes@,
                    off as int,
                    i as nat,
                )->Some_0.0[k],
        decreases count - i,
    {
        let ghost prefix = parse_strs(bytes@, off as int, i as nat)->Some_0.0;
        proof {
            if parse_strs(bytes@, off as int, count as nat) is Some {
                assert(parse_str(bytes@, cur as int) is Some);
            }
        }
        let (s, nxt) = match read_str(bytes, cur) {
            Ok(p) => p,
            Err(e) => {
                return Err(e);
            },
        };
        proof {
            lemma_parse_strs_snoc(bytes@, off as int, i as nat);
        }
        out.push(s);
        cur = nxt;
        i = i + 1;
        proof {
            lemma_parse_strs_len(bytes@, off as int, i as nat);
            assert(parse_strs(bytes@, off as int, i as nat)->Some_0.0 =~= prefix + seq![
                out@[out@.len() - 1]@,
            ]);
            assert forall|k: int| 0 <= k < i implies #[trigger] out@[k]@ == parse_strs(
                bytes@,
                off as int,
                i as nat,
            )->Some_0.0[k] by {
                if k < i - 1 {
                    assert(out@[k]@ == prefix[k]);
                } else {
                    assert(out@[k]@ == out@[out@.len() - 1]@);
                }
            }
        }
    }
    proof {
        lemma_parse_strs_len(bytes@, off as int, count as nat);
    }
    Ok((out, cur))
}

/// Reads one module name: a part count and its parts.
pub fn read_name(bytes: &Vec<u8>, off: usize) -> (r: Result<(LibName, usize), VmError>)
    ensures
        match r {
            Ok(p) => {
                &&& parse_name(bytes@, off as int) is Some
                &&& parse_name(bytes@, off as int)->Some_0.1 == p.1 as int
                &&& name_view(p.0) == parse_name(bytes@, off as int)->Some_0.0
            },
            Err(e) => e == VmError::ModuleLoadError,
        },
        parse_name(bytes@, off as int) is Some ==> r is Ok,
{
    proof {
        if parse_name(bytes@, off as int) is Some {
            assert(off + 8 <= bytes@.len());
        }
    }
    let count = match read_be_u64(bytes, off) {
        Ok(v) => v,
        Err(e) => {
            return Err(e);
        },
    };
    proof {
        vstd::std_specs::vec::axiom_spec_len(bytes);
    }
    let (parts, nxt) = match read_strs(bytes, off + 8, count) {
        Ok(p) => p,
        Err(e) => {
            return Err(e);
        },
    };
    proof {
        lemma_parse_strs_len(bytes@, off as int + 8, count as nat);
        assert(name_view(LibName(parts)) =~= parse_name(bytes@, off as int)->Some_0.0);
    }
    Ok((LibName(parts), nxt))
}

/// Reads `count` module names.
pub fn read_names(bytes: &Vec<u8>, off: usize, count: u64) -> (r: Result<
    (Vec<LibName>, usize),
    VmError,
>)
    ensures
        match r {
            Ok(p) => {
                &&& parse_names(bytes@, off as int, count as nat) is Some
                &&& p.0@.len() == count
                &&& forall|k: int|
                    0 <= k < count ==> name_view(#[trigger] p.0@[k]) == parse_names(
                        bytes@,
                        off as int,
                        count as nat,
                    )->Some_0.0[k]
            },
            Err(e) => e == VmError::ModuleLoadError,
        },
        parse_names(bytes@, off as int, count as nat) is Some ==> r is Ok,
{
    let mut out: Vec<LibName> = Vec::new();
    let mut cur = off;
    let mut i: u64 = 0;
    while i < count
        invariant
            i <= count,
            out@.len() == i,
            parse_names(bytes@, off as int, i as nat) is Some,
            parse_names(bytes@, off as int, i as nat)->Some_0.1 == cur as int,
            parse_names(bytes@, off as int, count as nat) is Some ==> parse_names(
                bytes@,
                cur as int,
                (count - i) as nat,
            ) is Some,
            forall|k: int|
                0 <= k < i ==> name_view(#[trigger] out@[k]) == parse_names(
                    bytes@,
                    off as int,
                    i as nat,
                )->Some_0.0[k],
        decreases count - i,
    {
        let ghost prefix = parse_names(bytes@, off as int, i as nat)->Some_0.0;
        proof {
            if parse_names(bytes@, off as int, count as nat) is Some {
                assert(parse_name(bytes@, cur as int) is Some);
            }
        }
        let (nm, nxt) = match read_name(bytes, cur) {
            Ok(p) => p,
            Err(e) => {
                return Err(e);
            },
        };
        proof {
            lemma_parse_names_snoc(bytes@, off as int, i as nat);
        }
        out.push(nm);
        cur = nxt;
        i = i + 1;
        proof {
            lemma_parse_names_len(bytes@, off as int, i as nat);
            assert(parse_names(bytes@, off as int, i as nat)->Some_0.0 =~= prefix + seq![
                name_view(out@[out@.len() - 1]),
            ]);
            assert forall|k: int| 0 <= k < i implies name_view(#[trigger] out@[k]) == parse_names(
                bytes@,
                off as int,
                i as nat,
            )->Some_0.0[k] by {
                if k < i - 1 {
                    assert(name_view(out@[k]) == prefix[k]);
                } else {
                    assert(name_view(out@[k]) == name_view(out@[out@.len() - 1]));
                }
            }
        }
    }
    proof {
        lemma_parse_names_len(bytes@, off as int, count as nat);
    }
    Ok((out, cur))
}

/// A well-formed module image: long enough for the header, the right
/// version byte, and all four sections in bounds and decodable.
pub open spec fn image_ok(s: Seq<u8>) -> bool {
    &&& s.len() >= 64
    &&& s[3] == crate::FORMAT_VERSION
    &&& be_u64_at(s, 32) <= usize::MAX
    &&& be_u64_at(s, 40) <= usize::MAX
    &&& be_u64_at(s, 48) <= usize::MAX
    &&& be_u64_at(s, 56) <= usize::MAX
    &&& be_u64_at(s, 40) as int + 8 <= s.len()
    &&& parse_names(s, be_u64_at(s, 40) as int + 8, be_u64_at(s, be_u64_at(s, 40) as int)) is Some
    &&& be_u64_at(s, 32) as int + 8 <= s.len()
    &&& parse_strs(s, be_u64_at(s, 32) as int + 8, be_u64_at(s, be_u64_at(s, 32) as int)) is Some
    &&& be_u64_at(s, 48) as int + 8 <= s.len()
    &&& parse_str(s, be_u64_at(s, 56) as int) is Some
}

impl Library {
    /// Parses a module image: validates the version byte, then decodes
    /// the import, symbol, export and text sections named by the header
    /// offsets. Any truncated or oversized section is the module-load
    /// error.
    pub fn parse(bytes: &Vec<u8>) -> (r: Result<ParsedLibrary, VmError>)
        ensures
            // a well-formed image always parses
            image_ok(bytes@) ==> r is Ok,
            match r {
                Ok(lib) => {
                    &&& bytes@.len() >= 64
                    &&& bytes@[3] == crate::FORMAT_VERSION
                    &&& lib.exports == be_u64_at(bytes@, be_u64_at(bytes@, 48) as int)
                    &&& ({
                        let sym_off = be_u64_at(bytes@, 32) as int;
                        let n = be_u64_at(bytes@, sym_off) as nat;
                        &&& lib.symbols@.len() == n
                        &&& parse_strs(bytes@, sym_off + 8, n) is Some
                        &&& forall|k: int|
                            0 <= k < n ==> #[trigger] lib.symbols@[k]@ == parse_strs(
                                bytes@,
                                sym_off + 8,
                                n,
                            )->Some_0.0[k]
                    })
                    &&& ({
                        let imp_off = be_u64_at(bytes@, 40) as int;
                        let n = be_u64_at(bytes@, imp_off) as nat;
                        &&& lib.imports@.len() == n
                        &&& parse_names(bytes@, imp_off + 8, n) is Some
                        &&& forall|k: int|
                            0 <= k < n ==> name_view(#[trigger] lib.imports@[k]) == parse_names(
                                bytes@,
                                imp_off + 8,
                                n,
                            )->Some_0.0[k]
                    })
                    &&& ({
                        let text_off = be_u64_at(bytes@, 56) as int;
                        lib.text@ == parse_str(bytes@, text_off)->Some_0.0
                    })
                },
                Err(e) => e == VmError::ModuleLoadError,
            },
    {
        if bytes.len() < 64 {
            return Err(VmError::ModuleLoadError);
        }
        if bytes[3] != crate::FORMAT_VERSION {
            return Err(VmError::ModuleLoadError);
        }
        let sym_off64 = match read_be_u64(bytes, 32) {
            Ok(v) => v,
            Err(e) => {
                return Err(e);
            },
        };
        let imp_off64 = match read_be_u64(bytes, 40) {
            Ok(v) => v,
            Err(e) => {
                return Err(e);
            },
        };
        let exp_off64 = match read_be_u64(bytes, 48) {
            Ok(v) => v,
            Err(e) => {
                return Err(e);
            },
        };
        let text_off64 = match read_be_u64(bytes, 56) {
            Ok(v) => v,
            Err(e) => {
                return Err(e);
            },
        };
        if sym_off64 > usize::MAX as u64 || imp_off64 > usize::MAX as u64 || exp_off64
            > usize::MAX as u64 || text_off64 > usize::MAX as u64 {
            return Err(VmError::ModuleLoadError);
        }
        let sym_off = sym_off64 as usize;
        let imp_off = imp_off64 as usize;
        let exp_off = exp_off64 as usize;
        let text_off = text_off64 as usize;
        let imp_count = match read_be_u64(bytes, imp_off) {
            Ok(v) => v,
            Err(_) => {
                return Err(VmError::ModuleLoadError);
            },
        };
        let (imports, _) = match read_names(bytes, imp_off + 8, imp_count) {
            Ok(p) => p,
            Err(e) => {
                return Err(e);
            },
        };
        let sym_count = match read_be_u64(bytes, sym_off) {
            Ok(v) => v,
            Err(_) => {
                return Err(VmError::ModuleLoadError);
            },
        };
        let (symbols, _) = match read_strs(bytes, sym_off + 8, sym_count) {
            Ok(p) => p,
            Err(e) => {
                return Err(e);
            },
        };
        let exports = match read_be_u64(bytes, exp_off) {
            Ok(v) => v,
            Err(_) => {
                return Err(VmError::ModuleLoadError);
            },
        };
        let (text, _) = match read_str(bytes, text_off) {
            Ok(p) => p,
            Err(e) => {
                return Err(e);
            },
        };
        Ok(ParsedLibrary { imports, symbols, exports, text })
    }
}

} // verus!
