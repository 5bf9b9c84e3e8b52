//! Sprite sheet metadata: the mapping between sprite names and their
//! rectangular areas within the image, and its binary codec.
//!
//! The mapping associates each sprite name (UTF-8 text) with one [`Rect`].
//! Keys are unique and a later insert of an existing name wins; the order in
//! which entries are held (and therefore encoded) is an implementation detail
//! and never part of a contract, so equality of two mappings is judged by
//! their entry sets, through [`Mapping::as_map`].

use vstd::prelude::*;

use crate::codec::{
    le32_at, lemma_u32_le_round_trip, push_bytes, push_u32_le, read_bytes, read_u32_le, read_u8,
    string_from_utf8, u32_le_bytes, DecodeError,
};
use vstd::utf8::{
    decode_utf8, encode_utf8, encode_utf8_decode_utf8, encode_utf8_valid_utf8, valid_utf8,
};

verus! {

/// Metadata format version.
pub const MAPPING_VERSION_NUMBER: u8 = 0;

/// Rectangle area of a sprite: top-left corner and size, in pixel units.
///
/// No invariant is enforced beyond representability; `w` and `h` may be zero
/// or exceed the image bounds (the latter surfaces at crop time, not at
/// decode time).
#[derive(Debug, Clone, Copy, PartialEq, Eq, Structural)]
pub struct Rect {
    pub x: u32,
    pub y: u32,
    pub w: u32,
    pub h: u32,
}

/// The entries of a mapping, reduced to their mathematical content: each
/// name as its character sequence, paired with its rectangle.
pub open spec fn deep_entries(s: Seq<(String, Rect)>) -> Seq<(Seq<char>, Rect)> {
    s.map_values(|e: (String, Rect)| (e.0@, e.1))
}

/// The map that a sequence of entries denotes, with a later entry for the
/// same name overriding an earlier one.
pub open spec fn map_of_entries(s: Seq<(Seq<char>, Rect)>) -> Map<Seq<char>, Rect>
    decreases s.len(),
{
    if s.len() == 0 {
        Map::empty()
    } else {
        map_of_entries(s.drop_last()).insert(s.last().0, s.last().1)
    }
}

/// A name is a key of `map_of_entries(s)` exactly when some entry of `s`
/// carries it.
pub proof fn lemma_map_of_entries_contains(s: Seq<(Seq<char>, Rect)>, name: Seq<char>)
    ensures
        map_of_entries(s).contains_key(name) <==> exists|i: int|
            0 <= i < s.len() && s[i].0 == name,
    decreases s.len(),
{
    if s.len() > 0 {
        lemma_map_of_entries_contains(s.drop_last(), name);
        if s.last().0 != name && map_of_entries(s).contains_key(name) {
            let i = choose|i: int| 0 <= i < s.drop_last().len() && s.drop_last()[i].0 == name;
            assert(s[i].0 == name);
        }
        if exists|i: int| 0 <= i < s.len() && s[i].0 == name {
            let i = choose|i: int| 0 <= i < s.len() && s[i].0 == name;
            if i < s.len() - 1 {
                assert(s.drop_last()[i].0 == name);
            }
        }
    }
}

/// The value of `map_of_entries(s)` at the name of an entry that no later
/// entry overrides is that entry's rectangle.
pub proof fn lemma_map_of_entries_value(s: Seq<(Seq<char>, Rect)>, i: int)
    requires
        0 <= i < s.len(),
        forall|j: int| i < j < s.len() ==> (#[trigger] s[j]).0 != s[i].0,
    ensures
        map_of_entries(s).contains_key(s[i].0),
        map_of_entries(s)[s[i].0] == s[i].1,
    decreases s.len(),
{
    if i == s.len() - 1 {
    } else {
        assert(s.drop_last()[i] == s[i]);
        lemma_map_of_entries_value(s.drop_last(), i);
        assert(s[s.len() - 1].0 != s[i].0);
    }
}

/// The table of named sprite areas: unique names, each bound to a [`Rect`].
#[derive(Clone)]
pub struct Mapping {
    pub entries: Vec<(String, Rect)>,
}

impl Mapping {
    /// Well-formed: no name occurs twice.
    pub open spec fn wf(self) -> bool {
        forall|i: int, j: int|
            0 <= i < j < self.entries@.len() ==> (#[trigger] self.entries@[i]).0@ != (
            #[trigger] self.entries@[j]).0@
    }

    /// The mathematical content of the table: a map from names to rectangles.
    pub open spec fn as_map(self) -> Map<Seq<char>, Rect> {
        map_of_entries(deep_entries(self.entries@))
    }

    /// Whether some entry carries `name`.
    pub open spec fn contains_name(self, name: Seq<char>) -> bool {
        exists|i: int| 0 <= i < self.entries@.len() && (#[trigger] self.entries@[i]).0@ == name
    }

    /// An entry carries `name` exactly when `name` is a key of the map.
    pub proof fn lemma_contains(self, name: Seq<char>)
        ensures
            self.contains_name(name) <==> self.as_map().contains_key(name),
    {
        let d = deep_entries(self.entries@);
        lemma_map_of_entries_contains(d, name);
        if self.contains_name(name) {
            let i = choose|i: int|
                0 <= i < self.entries@.len() && (#[trigger] self.entries@[i]).0@ == name;
            assert(d[i].0 == name);
        }
        if self.as_map().contains_key(name) {
            let i = choose|i: int| 0 <= i < d.len() && d[i].0 == name;
            assert(self.entries@[i].0@ == name);
        }
    }

    /// An empty table.
    pub fn empty() -> (r: Mapping)
        ensures
            r.wf(),
            r.entries@.len() == 0,
            r.as_map() == Map::<Seq<char>, Rect>::empty(),
    {
        Mapping { entries: Vec::new() }
    }

    /// The number of entries.
    pub fn len(&self) -> (r: usize)
        ensures
            r == self.entries@.len(),
    {
        self.entries.len()
    }

    /// Binds `name` to `rect`, replacing the binding a previous insert of the
    /// same name made.
    pub fn insert(&mut self, name: String, rect: Rect)
        requires
            old(self).wf(),
        ensures
            final(self).wf(),
            final(self).as_map() == old(self).as_map().insert(name@, rect),
            final(self).entries@.len() == old(self).entries@.len() + (if old(
                self,
            ).contains_name(name@) {
                0int
            } else {
                1int
            }),
    {
        let n = self.entries.len();
        let mut i: usize = 0;
        let mut found: bool = false;
        while i < n && !found
            invariant
                n == self.entries@.len(),
                i <= n,
                *self == *old(self),
                !found ==> forall|j: int|
                    0 <= j < i ==> (#[trigger] self.entries@[j]).0@ != name@,
                found ==> i < n && self.entries@[i as int].0@ == name@,
            decreases n - i + (if found {
                0int
            } else {
                1int
            }),
        {
            if self.entries[i].0 == name {
                found = true;
            } else {
                i = i + 1;
            }
        }
        let ghost orig = *old(self);
        if found {
            proof {
                assert(orig.contains_name(name@));
            }
            self.entries.remove(i);
            proof {
                self.lemma_insert_after_remove(orig, i as int, name@, rect);
            }
        } else {
            proof {
                assert(!orig.contains_name(name@));
            }
        }
        let ghost mid = *self;
        self.entries.push((name, rect));
        proof {
            let d_mid = deep_entries(mid.entries@);
            let d_fin = deep_entries(self.entries@);
            assert(d_fin.drop_last() =~= d_mid);
            assert(d_fin.last() == (name@, rect));
            assert(self.as_map() == map_of_entries(d_mid).insert(name@, rect));
            if found {
                assert(self.as_map() == orig.as_map().insert(name@, rect));
                assert forall|p: int, q: int|
                    0 <= p < q < self.entries@.len() implies (#[trigger] self.entries@[p]).0@ != (
                #[trigger] self.entries@[q]).0@ by {
                    assert(self.entries@[p] == mid.entries@[p]);
                    if q < self.entries@.len() - 1 {
                        assert(self.entries@[q] == mid.entries@[q]);
                    }
                }
            } else {
                assert(d_mid =~= deep_entries(orig.entries@));
                assert(self.as_map() == orig.as_map().insert(name@, rect));
                assert forall|p: int, q: int|
                    0 <= p < q < self.entries@.len() implies (#[trigger] self.entries@[p]).0@ != (
                #[trigger] self.entries@[q]).0@ by {
                    assert(self.entries@[p] == orig.entries@[p]);
                    if q < self.entries@.len() - 1 {
                        assert(self.entries@[q] == orig.entries@[q]);
                    }
                }
            }
        }
    }

    /// After removing the sole entry that carries `name` from a well-formed
    /// table, re-appending a binding for `name` denotes insertion into the
    /// original map.
    proof fn lemma_insert_after_remove(self, orig: Mapping, i: int, name: Seq<char>, rect: Rect)
        requires
            orig.wf(),
            0 <= i < orig.entries@.len(),
            orig.entries@[i].0@ == name,
            self.entries@ == orig.entries@.remove(i),
        ensures
            self.wf(),
            forall|j: int|
                0 <= j < self.entries@.len() ==> (#[trigger] self.entries@[j]).0@ != name,
            map_of_entries(deep_entries(self.entries@)).insert(name, rect)
                == orig.as_map().insert(name, rect),
    {
        orig.entries@.remove_ensures(i);
        let d_new = deep_entries(self.entries@);
        let d_old = deep_entries(orig.entries@);
        assert forall|j: int| 0 <= j < self.entries@.len() implies (
        #[trigger] self.entries@[j]).0@ != name by {
            if j < i {
                assert(self.entries@[j] == orig.entries@[j]);
            } else {
                assert(self.entries@[j] == orig.entries@[j + 1]);
            }
        }
        assert forall|p: int, q: int| 0 <= p < q < self.entries@.len() implies (
        #[trigger] self.entries@[p]).0@ != (#[trigger] self.entries@[q]).0@ by {
            let p0 = if p < i { p } else { p + 1 };
            let q0 = if q < i { q } else { q + 1 };
            assert(self.entries@[p] == orig.entries@[p0]);
            assert(self.entries@[q] == orig.entries@[q0]);
        }
        let m_new = map_of_entries(d_new).insert(name, rect);
        let m_old = orig.as_map().insert(name, rect);
        assert forall|k: Seq<char>| #[trigger] m_new.contains_key(k) implies m_old.contains_key(
            k,
        ) && m_new[k] == m_old[k] by {
            if k != name {
                lemma_map_of_entries_contains(d_new, k);
                let j = choose|j: int| 0 <= j < d_new.len() && d_new[j].0 == k;
                let j0 = if j < i { j } else { j + 1 };
                assert(self.entries@[j] == orig.entries@[j0]);
                assert forall|jj: int| j < jj < d_new.len() implies (#[trigger] d_new[jj]).0
                    != d_new[j].0 by {
                    assert(d_new[jj].0 == self.entries@[jj].0@);
                    assert(d_new[j].0 == self.entries@[j].0@);
                }
                lemma_map_of_entries_value(d_new, j);
                assert forall|jj: int| j0 < jj < d_old.len() implies (#[trigger] d_old[jj]).0
                    != d_old[j0].0 by {
                    assert(d_old[jj].0 == orig.entries@[jj].0@);
                    assert(d_old[j0].0 == orig.entries@[j0].0@);
                }
                lemma_map_of_entries_value(d_old, j0);
            }
        }
        assert forall|k: Seq<char>| #[trigger] m_old.contains_key(k) implies m_new.contains_key(
            k,
        ) by {
            if k != name {
                lemma_map_of_entries_contains(d_old, k);
                let j0 = choose|j0: int| 0 <= j0 < d_old.len() && d_old[j0].0 == k;
                let j = if j0 < i { j0 } else { j0 - 1 };
                assert(j0 != i);
                assert(self.entries@[j] == orig.entries@[j0]);
                assert(d_new[j].0 == k);
                lemma_map_of_entries_contains(d_new, k);
            }
        }
        assert(m_new =~= m_old);
    }

    /// Looks `name` up: the bound rectangle when present, absent otherwise.
    pub fn get(&self, name: &String) -> (r: Option<&Rect>)
        requires
            self.wf(),
        ensures
            r is Some <==> self.as_map().contains_key(name@),
            r matches Some(rect) ==> self.as_map()[name@] == *rect,
    {
        proof {
            self.lemma_contains(name@);
        }
        let n = self.entries.len();
        let mut i: usize = 0;
        while i < n
            invariant
                self.wf(),
                n == self.entries@.len(),
                i <= n,
                forall|j: int| 0 <= j < i ==> (#[trigger] self.entries@[j]).0@ != name@,
            decreases n - i,
        {
            if self.entries[i].0 == *name {
                proof {
                    let d = deep_entries(self.entries@);
                    lemma_map_of_entries_value(d, i as int);
                }
                return Some(&self.entries[i].1);
            }
            i = i + 1;
        }
        None
    }
}

impl Mapping {
    /// Representable in the binary form: the entry count and every key's
    /// UTF-8 byte length fit the unsigned 32-bit fields that hold them.
    pub open spec fn encodable(self) -> bool {
        &&& self.entries@.len() <= u32::MAX
        &&& forall|i: int|
            0 <= i < self.entries@.len() ==> encode_utf8(
                (#[trigger] self.entries@[i]).0@,
            ).len() <= u32::MAX
    }

    /// Tests at run time whether the table is representable in the binary
    /// form, so that a caller can gate an encode on it.
    #[verifier::loop_isolation(false)]
    pub fn check_encodable(&self) -> (b: bool)
        ensures
            b == self.encodable(),
    {
        let n = self.entries.len();
        if n > u32::MAX as usize {
            return false;
        }
        let mut i: usize = 0;
        while i < n
            invariant
                i <= n,
                forall|j: int|
                    0 <= j < i ==> encode_utf8((#[trigger] self.entries@[j]).0@).len() <= u32::MAX,
            decreases n - i,
        {
            let key_bytes: &[u8] = self.entries[i].0.as_str().as_bytes();
            if key_bytes.len() > u32::MAX as usize {
                return false;
            }
            i = i + 1;
        }
        true
    }
}

/// The sixteen bytes of a rectangle: x, y, w, h, each little-endian.
pub open spec fn spec_encode_rect(r: Rect) -> Seq<u8> {
    u32_le_bytes(r.x) + u32_le_bytes(r.y) + u32_le_bytes(r.w) + u32_le_bytes(r.h)
}

/// One mapping entry: key byte length, key bytes, then the rectangle.
pub open spec fn spec_encode_entry(name: Seq<char>, r: Rect) -> Seq<u8> {
    u32_le_bytes(encode_utf8(name).len() as u32) + encode_utf8(name) + spec_encode_rect(r)
}

/// The concatenated encodings of a sequence of entries.
pub open spec fn spec_encode_entry_seq(s: Seq<(String, Rect)>) -> Seq<u8>
    decreases s.len(),
{
    if s.len() == 0 {
        Seq::empty()
    } else {
        spec_encode_entry(s[0].0@, s[0].1) + spec_encode_entry_seq(s.drop_first())
    }
}

/// The binary form of a whole mapping: version byte, entry count, entries.
pub open spec fn spec_encode_mapping(m: Mapping) -> Seq<u8> {
    seq![MAPPING_VERSION_NUMBER] + u32_le_bytes(m.entries@.len() as u32) + spec_encode_entry_seq(
        m.entries@,
    )
}

/// Appending an entry appends its encoding.
proof fn lemma_encode_entry_seq_push(s: Seq<(String, Rect)>, e: (String, Rect))
    ensures
        spec_encode_entry_seq(s.push(e)) == spec_encode_entry_seq(s) + spec_encode_entry(
            e.0@,
            e.1,
        ),
    decreases s.len(),
{
    if s.len() == 0 {
        assert(s.push(e)[0] == e);
        assert(s.push(e).drop_first() =~= Seq::<(String, Rect)>::empty());
        assert(spec_encode_entry_seq(s.push(e).drop_first()) == Seq::<u8>::empty());
        assert(spec_encode_entry_seq(s.push(e)) == spec_encode_entry(e.0@, e.1) + Seq::<
            u8,
        >::empty());
        assert(spec_encode_entry(e.0@, e.1) + Seq::<u8>::empty() =~= Seq::<u8>::empty()
            + spec_encode_entry(e.0@, e.1));
    } else {
        assert(s.push(e)[0] == s[0]);
        assert(s.push(e).drop_first() =~= s.drop_first().push(e));
        lemma_encode_entry_seq_push(s.drop_first(), e);
        assert(spec_encode_entry_seq(s.push(e)) == spec_encode_entry(s[0].0@, s[0].1) + (
        spec_encode_entry_seq(s.drop_first()) + spec_encode_entry(e.0@, e.1)));
        assert(spec_encode_entry(s[0].0@, s[0].1) + (spec_encode_entry_seq(s.drop_first())
            + spec_encode_entry(e.0@, e.1)) =~= (spec_encode_entry(s[0].0@, s[0].1)
            + spec_encode_entry_seq(s.drop_first())) + spec_encode_entry(e.0@, e.1));
    }
}

/// The result of decoding `n` entries at position `pos`: the entries read
/// and the position after them, or the first failure.
pub open spec fn spec_decode_entries(bytes: Seq<u8>, pos: int, n: nat) -> Result<
    (Seq<(Seq<char>, Rect)>, int),
    DecodeError,
>
    decreases n,
{
    if n == 0 {
        Ok((Seq::empty(), pos))
    } else if pos + 4 > bytes.len() {
        Err(DecodeError::Truncation)
    } else {
        let klen = le32_at(bytes, pos) as int;
        if pos + 4 + klen > bytes.len() {
            Err(DecodeError::Truncation)
        } else if !valid_utf8(bytes.subrange(pos + 4, pos + 4 + klen)) {
            Err(DecodeError::InvalidEncoding)
        } else if pos + 4 + klen + 16 > bytes.len() {
            Err(DecodeError::Truncation)
        } else {
            let name = decode_utf8(bytes.subrange(pos + 4, pos + 4 + klen));
            let rect = Rect {
                x: le32_at(bytes, pos + 4 + klen),
                y: le32_at(bytes, pos + 4 + klen + 4),
                w: le32_at(bytes, pos + 4 + klen + 8),
                h: le32_at(bytes, pos + 4 + klen + 12),
            };
            match spec_decode_entries(bytes, pos + 4 + klen + 16, (n - 1) as nat) {
                Ok((rest, end)) => Ok((seq![(name, rect)] + rest, end)),
                Err(e) => Err(e),
            }
        }
    }
}

/// The result of decoding a whole mapping section at position `start`.
pub open spec fn spec_decode_mapping(bytes: Seq<u8>, start: int) -> Result<
    (Seq<(Seq<char>, Rect)>, int),
    DecodeError,
> {
    if start + 1 > bytes.len() {
        Err(DecodeError::Truncation)
    } else if bytes[start] != MAPPING_VERSION_NUMBER {
        Err(DecodeError::VersionMismatch)
    } else if start + 5 > bytes.len() {
        Err(DecodeError::Truncation)
    } else {
        spec_decode_entries(bytes, start + 5, le32_at(bytes, start + 1) as nat)
    }
}

/// Entries already decoded, joined with the outcome of decoding the rest.
spec fn lift_decoded(
    done: Seq<(Seq<char>, Rect)>,
    r: Result<(Seq<(Seq<char>, Rect)>, int), DecodeError>,
) -> Result<(Seq<(Seq<char>, Rect)>, int), DecodeError> {
    match r {
        Ok((rest, end)) => Ok((done + rest, end)),
        Err(e) => Err(e),
    }
}

/// A mapping entry whose declared key bytes are not valid UTF-8 fails
/// decoding with an encoding error; no later entry is examined, whatever it
/// holds.
pub proof fn lemma_utf8_guard(bytes: Seq<u8>, pos: int, n: nat)
    requires
        n > 0,
        0 <= pos,
        pos + 4 <= bytes.len(),
        pos + 4 + le32_at(bytes, pos) <= bytes.len(),
        !valid_utf8(bytes.subrange(pos + 4, pos + 4 + le32_at(bytes, pos))),
    ensures
        spec_decode_entries(bytes, pos, n) == Err::<(Seq<(Seq<char>, Rect)>, int), DecodeError>(
            DecodeError::InvalidEncoding,
        ),
{
}

/// Decoding the encoding of a sequence of entries, wherever it sits in a
/// larger byte sequence, yields exactly those entries and consumes exactly
/// their encoding.
pub proof fn lemma_entries_round_trip(entries: Seq<(String, Rect)>, bytes: Seq<u8>, pos: int)
    requires
        0 <= pos,
        pos + spec_encode_entry_seq(entries).len() <= bytes.len(),
        bytes.subrange(pos, pos + spec_encode_entry_seq(entries).len() as int)
            == spec_encode_entry_seq(entries),
        forall|i: int|
            0 <= i < entries.len() ==> encode_utf8((#[trigger] entries[i]).0@).len() <= u32::MAX,
    ensures
        spec_decode_entries(bytes, pos, entries.len() as nat) == Ok::<
            (Seq<(Seq<char>, Rect)>, int),
            DecodeError,
        >((deep_entries(entries), pos + spec_encode_entry_seq(entries).len())),
    decreases entries.len(),
{
    let total = spec_encode_entry_seq(entries);
    if entries.len() == 0 {
        assert(deep_entries(entries) =~= Seq::<(Seq<char>, Rect)>::empty());
    } else {
        let e = entries[0];
        let name = e.0@;
        let kb = encode_utf8(name);
        let klen = kb.len() as int;
        let lb = u32_le_bytes(klen as u32);
        let er = spec_encode_rect(e.1);
        let enc_e = spec_encode_entry(name, e.1);
        let enc_rest = spec_encode_entry_seq(entries.drop_first());
        assert(total == enc_e + enc_rest);
        assert(enc_e == (lb + kb) + er);
        assert forall|i: int| 0 <= i < total.len() implies total[i] == bytes[pos + i] by {
            assert(bytes.subrange(pos, pos + total.len() as int)[i] == bytes[pos + i]);
        }
        assert forall|i: int| 0 <= i < enc_e.len() implies enc_e[i] == bytes[pos + i] by {
            assert(total[i] == (enc_e + enc_rest)[i]);
        }

        // The key length field.
        assert forall|i: int| 0 <= i < 4 implies bytes[pos + i] == lb[i] by {
            assert(enc_e[i] == ((lb + kb) + er)[i]);
        }
        lemma_u32_le_round_trip(klen as u32);
        assert(bytes[pos] == lb[0] && bytes[pos + 1] == lb[1] && bytes[pos + 2] == lb[2] && bytes[
            pos + 3] == lb[3]);
        assert(le32_at(bytes, pos) == klen as u32);
        assert(le32_at(bytes, pos) as int == klen);

        // The key bytes.
        assert forall|i: int| 0 <= i < klen implies bytes[pos + 4 + i] == kb[i] by {
            assert(enc_e[4 + i] == ((lb + kb) + er)[4 + i]);
            assert(((lb + kb) + er)[4 + i] == (lb + kb)[4 + i]);
        }
        assert(bytes.subrange(pos + 4, pos + 4 + klen) =~= kb);
        encode_utf8_valid_utf8(name);
        encode_utf8_decode_utf8(name);
        assert(decode_utf8(bytes.subrange(pos + 4, pos + 4 + klen)) == name);

        // The rectangle.
        let rp = pos + 4 + klen;
        assert forall|i: int| 0 <= i < 16 implies bytes[rp + i] == er[i] by {
            assert(enc_e[4 + klen + i] == ((lb + kb) + er)[4 + klen + i]);
            assert(bytes[pos + (4 + klen + i)] == enc_e[4 + klen + i]);
        }
        let lex = u32_le_bytes(e.1.x);
        let ley = u32_le_bytes(e.1.y);
        let lew = u32_le_bytes(e.1.w);
        let leh = u32_le_bytes(e.1.h);
        assert(er == ((lex + ley) + lew) + leh);
        assert forall|i: int| 0 <= i < 4 implies er[i] == lex[i] && er[4 + i] == ley[i] && er[8
            + i] == lew[i] && er[12 + i] == leh[i] by {
            assert(er[i] == (((lex + ley) + lew) + leh)[i]);
            assert(er[4 + i] == (((lex + ley) + lew) + leh)[4 + i]);
            assert(er[8 + i] == (((lex + ley) + lew) + leh)[8 + i]);
            assert(er[12 + i] == (((lex + ley) + lew) + leh)[12 + i]);
            assert((((lex + ley) + lew) + leh)[i] == ((lex + ley) + lew)[i]);
            assert((((lex + ley) + lew) + leh)[4 + i] == ((lex + ley) + lew)[4 + i]);
            assert((((lex + ley) + lew) + leh)[8 + i] == ((lex + ley) + lew)[8 + i]);
            assert(((lex + ley) + lew)[i] == (lex + ley)[i]);
            assert(((lex + ley) + lew)[4 + i] == (lex + ley)[4 + i]);
        }
        lemma_u32_le_round_trip(e.1.x);
        lemma_u32_le_round_trip(e.1.y);
        lemma_u32_le_round_trip(e.1.w);
        lemma_u32_le_round_trip(e.1.h);
        assert(bytes[rp] == lex[0] && bytes[rp + 1] == lex[1] && bytes[rp + 2] == lex[2] && bytes[
            rp + 3] == lex[3]);
        assert(bytes[rp + 4] == ley[0] && bytes[rp + 4 + 1] == ley[1] && bytes[rp + 4 + 2] == ley[2]
            && bytes[rp + 4 + 3] == ley[3]);
        assert(bytes[rp + 8] == lew[0] && bytes[rp + 8 + 1] == lew[1] && bytes[rp + 8 + 2] == lew[2]
            && bytes[rp + 8 + 3] == lew[3]);
        assert(bytes[rp + 12] == leh[0] && bytes[rp + 12 + 1] == leh[1] && bytes[rp + 12 + 2]
            == leh[2] && bytes[rp + 12 + 3] == leh[3]);
        assert(le32_at(bytes, rp) == e.1.x);
        assert(le32_at(bytes, rp + 4) == e.1.y);
        assert(le32_at(bytes, rp + 8) == e.1.w);
        assert(le32_at(bytes, rp + 12) == e.1.h);
        let rect = Rect {
            x: le32_at(bytes, rp),
            y: le32_at(bytes, rp + 4),
            w: le32_at(bytes, rp + 8),
            h: le32_at(bytes, rp + 12),
        };
        assert(rect == e.1);

        // The remaining entries.
        let pos2 = pos + 4 + klen + 16;
        assert forall|i: int| 0 <= i < enc_rest.len() implies bytes[pos2 + i] == enc_rest[i] by {
            assert(total[enc_e.len() + i] == (enc_e + enc_rest)[enc_e.len() + i]);
            assert(bytes[pos + (enc_e.len() + i)] == total[enc_e.len() + i]);
        }
        assert(bytes.subrange(pos2, pos2 + enc_rest.len() as int) =~= enc_rest);
        assert(forall|i: int|
            0 <= i < entries.drop_first().len() ==> (#[trigger] entries.drop_first()[i])
                == entries[i + 1]);
        lemma_entries_round_trip(entries.drop_first(), bytes, pos2);

        assert(seq![(name, rect)] + deep_entries(entries.drop_first()) =~= deep_entries(entries));
        assert(pos2 + enc_rest.len() == pos + total.len());
    }
}

/// Decoding the encoding of a mapping, wherever it sits in a larger byte
/// sequence, yields exactly its entries and consumes exactly the encoding.
pub proof fn lemma_mapping_round_trip(m: Mapping, bytes: Seq<u8>, start: int)
    requires
        m.encodable(),
        0 <= start,
        start + spec_encode_mapping(m).len() <= bytes.len(),
        bytes.subrange(start, start + spec_encode_mapping(m).len() as int) == spec_encode_mapping(
            m,
        ),
    ensures
        spec_decode_mapping(bytes, start) == Ok::<(Seq<(Seq<char>, Rect)>, int), DecodeError>(
            (deep_entries(m.entries@), start + spec_encode_mapping(m).len()),
        ),
{
    let total = spec_encode_mapping(m);
    let count = m.entries@.len();
    let body = spec_encode_entry_seq(m.entries@);
    let vb = seq![MAPPING_VERSION_NUMBER];
    let cb = u32_le_bytes(count as u32);
    assert(total == (vb + cb) + body);
    assert forall|i: int| 0 <= i < total.len() implies total[i] == bytes[start + i] by {
        assert(bytes.subrange(start, start + total.len() as int)[i] == bytes[start + i]);
    }
    assert(bytes[start] == total[0]);
    assert(total[0] == ((vb + cb) + body)[0]);
    assert(bytes[start] == MAPPING_VERSION_NUMBER);
    assert forall|i: int| 0 <= i < 4 implies bytes[start + 1 + i] == cb[i] by {
        assert(total[1 + i] == ((vb + cb) + body)[1 + i]);
        assert(((vb + cb) + body)[1 + i] == (vb + cb)[1 + i]);
        assert(bytes[start + (1 + i)] == total[1 + i]);
    }
    lemma_u32_le_round_trip(count as u32);
    assert(bytes[start + 1] == cb[0] && bytes[start + 1 + 1] == cb[1] && bytes[start + 1 + 2]
        == cb[2] && bytes[start + 1 + 3] == cb[3]);
    assert(le32_at(bytes, start + 1) == count as u32);
    assert(le32_at(bytes, start + 1) as nat == count);
    assert forall|i: int| 0 <= i < body.len() implies bytes[start + 5 + i] == body[i] by {
        assert(total[5 + i] == ((vb + cb) + body)[5 + i]);
        assert(bytes[start + (5 + i)] == total[5 + i]);
    }
    assert(bytes.subrange(start + 5, start + 5 + body.len() as int) =~= body);
    lemma_entries_round_trip(m.entries@, bytes, start + 5);
    assert(start + 5 + body.len() == start + total.len());
}

/// Metadata of the sprite sheet file type: the name-to-area table.
#[derive(Clone)]
pub struct SpriteSheetMetaData {
    pub mapping: Mapping,
}

impl SpriteSheetMetaData {
    /// Metadata with an empty table.
    pub fn empty() -> (r: Self)
        ensures
            r.mapping.wf(),
            r.mapping.entries@.len() == 0,
            r.mapping.as_map() == Map::<Seq<char>, Rect>::empty(),
    {
        SpriteSheetMetaData { mapping: Mapping::empty() }
    }

    /// The number of entries in the table.
    pub fn len(&self) -> (r: usize)
        ensures
            r == self.mapping.entries@.len(),
    {
        self.mapping.len()
    }

    /// Appends the binary form of the table to `out`: version byte, entry
    /// count, then each entry as key length, key bytes and rectangle.
    pub fn to_writer(&self, out: &mut Vec<u8>)
        requires
            self.mapping.encodable(),
        ensures
            final(out)@ == old(out)@ + spec_encode_mapping(self.mapping),
    {
        let entries = &self.mapping.entries;
        let n = entries.len();
        out.push(MAPPING_VERSION_NUMBER);
        push_u32_le(out, n as u32);
        let ghost header = seq![MAPPING_VERSION_NUMBER] + u32_le_bytes(n as u32);
        proof {
            assert(out@ =~= old(out)@ + header);
            assert(entries@.take(0) =~= Seq::<(String, Rect)>::empty());
        }
        let mut i: usize = 0;
        while i < n
            invariant
                self.mapping.encodable(),
                n == entries@.len(),
                entries == self.mapping.entries,
                i <= n,
                out@ == old(out)@ + header + spec_encode_entry_seq(entries@.take(i as int)),
            decreases n - i,
        {
            let e = &entries[i];
            let key_bytes: &[u8] = e.0.as_str().as_bytes();
            push_u32_le(out, key_bytes.len() as u32);
            push_bytes(out, key_bytes);
            push_u32_le(out, e.1.x);
            push_u32_le(out, e.1.y);
            push_u32_le(out, e.1.w);
            push_u32_le(out, e.1.h);
            proof {
                let enc = spec_encode_entry(entries@[i as int].0@, entries@[i as int].1);
                assert(u32_le_bytes(key_bytes@.len() as u32) + key_bytes@ + (u32_le_bytes(
                    entries@[i as int].1.x,
                ) + u32_le_bytes(entries@[i as int].1.y) + u32_le_bytes(entries@[i as int].1.w)
                    + u32_le_bytes(entries@[i as int].1.h)) =~= enc);
                assert(out@ =~= old(out)@ + header + (spec_encode_entry_seq(
                    entries@.take(i as int),
                ) + enc));
                lemma_encode_entry_seq_push(entries@.take(i as int), entries@[i as int]);
                assert(entries@.take(i as int).push(entries@[i as int]) =~= entries@.take(
                    i as int + 1,
                ));
            }
            i = i + 1;
        }
        proof {
            assert(entries@.take(n as int) =~= entries@);
            assert(old(out)@ + header + spec_encode_entry_seq(entries@) =~= old(out)@
                + spec_encode_mapping(self.mapping));
        }
    }

    /// The binary form of the table as a fresh byte vector.
    pub fn to_bytes(&self) -> (r: Vec<u8>)
        requires
            self.mapping.encodable(),
        ensures
            r@ == spec_encode_mapping(self.mapping),
    {
        let mut bytes: Vec<u8> = Vec::new();
        self.to_writer(&mut bytes);
        proof {
            assert(bytes@ =~= spec_encode_mapping(self.mapping));
        }
        bytes
    }

    /// Decodes a mapping section that starts at position `start` of `bytes`:
    /// the metadata read and the position after it, or the first failure.
    ///
    /// The version byte must equal the supported version, every declared
    /// length must be fully available, and key bytes must be valid UTF-8; a
    /// later entry with the name of an earlier one wins. Bytes after the
    /// declared entry count are left unread.
    #[verifier::loop_isolation(false)]
    pub fn from_reader(bytes: &[u8], start: usize) -> (r: Result<
        (SpriteSheetMetaData, usize),
        DecodeError,
    >)
        ensures
            match spec_decode_mapping(bytes@, start as int) {
                Ok((es, end)) => r matches Ok(v) && v.0.mapping.wf() && v.0.mapping.as_map()
                    == map_of_entries(es) && v.1 == end,
                Err(e) => r matches Err(e2) && e2 == e,
            },
            start < bytes@.len() && bytes@[start as int] != MAPPING_VERSION_NUMBER ==> (r matches
            Err(e) && e == DecodeError::VersionMismatch),
    {
        let len = bytes.len();
        let version = match read_u8(bytes, start) {
            Some(v) => v,
            None => {
                return Err(DecodeError::Truncation);
            },
        };
        proof {
            assert(start < len);
        }
        if version != MAPPING_VERSION_NUMBER {
            return Err(DecodeError::VersionMismatch);
        }
        let count = match read_u32_le(bytes, start + 1) {
            Some(c) => c,
            None => {
                return Err(DecodeError::Truncation);
            },
        };
        let mut mapping = Mapping::empty();
        let ghost mut done: Seq<(Seq<char>, Rect)> = Seq::empty();
        let mut pos: usize = start + 5;
        let mut k: u32 = 0;
        proof {
            let r0 = spec_decode_entries(bytes@, start as int + 5, count as nat);
            if r0 is Ok {
                assert(Seq::<(Seq<char>, Rect)>::empty() + r0->Ok_0.0 =~= r0->Ok_0.0);
            }
        }
        while k < count
            invariant
                k <= count,
                pos <= bytes@.len(),
                mapping.wf(),
                mapping.as_map() == map_of_entries(done),
                spec_decode_entries(bytes@, start as int + 5, count as nat) == lift_decoded(
                    done,
                    spec_decode_entries(bytes@, pos as int, (count - k) as nat),
                ),
            decreases count - k,
        {
            let klen = match read_u32_le(bytes, pos) {
                Some(x) => x,
                None => {
                    return Err(DecodeError::Truncation);
                },
            };
            let key_buf = match read_bytes(bytes, pos + 4, klen as usize) {
                Some(v) => v,
                None => {
                    return Err(DecodeError::Truncation);
                },
            };
            let ghost key_bytes = key_buf@;
            let key = match string_from_utf8(key_buf) {
                Some(s) => s,
                None => {
                    return Err(DecodeError::InvalidEncoding);
                },
            };
            let mut p: usize = pos + 4 + klen as usize;
            let x = match read_u32_le(bytes, p) {
                Some(v) => v,
                None => {
                    return Err(DecodeError::Truncation);
                },
            };
            p = p + 4;
            let y = match read_u32_le(bytes, p) {
                Some(v) => v,
                None => {
                    return Err(DecodeError::Truncation);
                },
            };
            p = p + 4;
            let w = match read_u32_le(bytes, p) {
                Some(v) => v,
                None => {
                    return Err(DecodeError::Truncation);
                },
            };
            p = p + 4;
            let h = match read_u32_le(bytes, p) {
                Some(v) => v,
                None => {
                    return Err(DecodeError::Truncation);
                },
            };
            let rect = Rect { x, y, w, h };
            let ghost key_view = key@;
            proof {
                encode_utf8_decode_utf8(key_view);
                assert(decode_utf8(key_bytes) == key_view);
                let rest0 = spec_decode_entries(
                    bytes@,
                    pos as int + 4 + klen as int + 16,
                    (count - k - 1) as nat,
                );
                assert(spec_decode_entries(bytes@, pos as int, (count - k) as nat) == lift_decoded(
                    seq![(key_view, rect)],
                    rest0,
                ));
                if rest0 is Ok {
                    let (rest, end) = rest0->Ok_0;
                    assert(done + (seq![(key_view, rect)] + rest) =~= done.push((key_view, rect))
                        + rest);
                }
            }
            mapping.insert(key, rect);
            proof {
                let pre = done;
                done = done.push((key_view, rect));
                assert(done.drop_last() =~= pre);
                assert(done.last() == (key_view, rect));
                assert(map_of_entries(done) == map_of_entries(pre).insert(key_view, rect));
            }
            pos = p + 4;
            k = k + 1;
        }
        proof {
            assert(done + Seq::<(Seq<char>, Rect)>::empty() =~= done);
        }
        Ok((SpriteSheetMetaData { mapping }, pos))
    }

    /// Decodes a whole byte vector as a mapping, per [`Self::from_reader`];
    /// bytes after the declared entry count are ignored.
    pub fn from_bytes(bytes: Vec<u8>) -> (r: Result<SpriteSheetMetaData, DecodeError>)
        ensures
            match spec_decode_mapping(bytes@, 0) {
                Ok((es, _)) => r matches Ok(m) && m.mapping.wf() && m.mapping.as_map()
                    == map_of_entries(es),
                Err(e) => r matches Err(e2) && e2 == e,
            },
    {
        match Self::from_reader(bytes.as_slice(), 0) {
            Ok((m, _)) => Ok(m),
            Err(e) => Err(e),
        }
    }
}

} // verus!
