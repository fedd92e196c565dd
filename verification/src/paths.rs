//! Paths as sequences of components.
//!
//! A path is read as on Unix: repeated slashes count once, a `.` counts only
//! at the very beginning, and a leading slash is a component of its own.

use vstd::prelude::*;
use vstd::slice::*;
use vstd::utf8::*;

use crate::text;

verus! {

/// The byte of a slash.
pub const SLASH: u8 = 0x2f;

/// The byte of a dot.
pub const DOT: u8 = 0x2e;

/// The component that stands for the root.
pub open spec fn root() -> Seq<u8> {
    seq![SLASH]
}

/// The component that names the directory itself.
pub open spec fn here() -> Seq<u8> {
    seq![DOT]
}

/// The component that names the directory above.
pub open spec fn above() -> Seq<u8> {
    seq![DOT, DOT]
}

/// How many bytes come before the first slash.
pub open spec fn segment_len(b: Seq<u8>) -> nat
    decreases b.len(),
{
    if b.len() == 0 || b[0] == SLASH {
        0
    } else {
        1 + segment_len(b.drop_first())
    }
}

/// The part before the first slash is no longer than the whole.
pub proof fn lemma_segment_len(b: Seq<u8>)
    ensures
        segment_len(b) <= b.len(),
        forall|i: int| 0 <= i < segment_len(b) ==> b[i] != SLASH,
        segment_len(b) < b.len() ==> b[segment_len(b) as int] == SLASH,
    decreases b.len(),
{
    if b.len() > 0 && b[0] != SLASH {
        let rest = b.drop_first();
        lemma_segment_len(rest);
        assert forall|i: int| 0 <= i < segment_len(b) implies b[i] != SLASH by {
            if i > 0 {
                assert(rest[i - 1] == b[i]);
            }
        }
    }
}

/// The length of the part before the first slash.
proof fn lemma_segment_len_is(b: Seq<u8>, n: int)
    requires
        0 <= n <= b.len(),
        forall|i: int| 0 <= i < n ==> b[i] != SLASH,
        n < b.len() ==> b[n] == SLASH,
    ensures
        segment_len(b) == n,
{
    lemma_segment_len(b);
    let m = segment_len(b) as int;
    if m < n {
        assert(b[m] != SLASH);
    } else if n < m {
        assert(b[n] != SLASH);
    }
}

/// Whether the part between two slashes is a component.
pub open spec fn counts(segment: Seq<u8>, first: bool) -> bool {
    segment.len() > 0 && (first || segment != here())
}

/// The component that a part makes, if it is one.
pub open spec fn kept(segment: Seq<u8>, first: bool) -> Seq<Seq<u8>> {
    if counts(segment, first) {
        seq![segment]
    } else {
        Seq::empty()
    }
}

/// The components between slashes; `first` says that the path begins here.
pub open spec fn parts(b: Seq<u8>, first: bool) -> Seq<Seq<u8>>
    decreases b.len(),
{
    let n = segment_len(b) as int;
    if n >= b.len() {
        kept(b, first)
    } else {
        kept(b.take(n), first) + parts(b.skip(n + 1), false)
    }
}

/// The components of a path.
pub open spec fn components(b: Seq<u8>) -> Seq<Seq<u8>> {
    if b.len() > 0 && b[0] == SLASH {
        seq![root()] + parts(b, true)
    } else {
        parts(b, true)
    }
}

/// The components of the UTF-8 form of a path.
pub open spec fn path_components(p: Seq<char>) -> Seq<Seq<u8>> {
    components(encode_utf8(p))
}

/// Byte strings as mathematical values.
pub open spec fn pieces(v: Seq<Vec<u8>>) -> Seq<Seq<u8>> {
    v.map_values(|b: Vec<u8>| b@)
}

/// Whether the path goes through the directory above at some point.
pub open spec fn goes_up(p: Seq<char>) -> bool {
    path_components(p).contains(above())
}

/// Whether the path lies under the base, component by component.
pub open spec fn lies_under(p: Seq<char>, base: Seq<char>) -> bool {
    path_components(base).is_prefix_of(path_components(p))
}

/// The components of a path.
pub fn split(p: &str) -> (r: Vec<Vec<u8>>)
    ensures
        pieces(r@) == path_components(p@),
{
    let b: &[u8] = p.as_bytes();
    let mut r: Vec<Vec<u8>> = Vec::new();
    if b.len() > 0 && b[0] == SLASH {
        let mut top: Vec<u8> = Vec::new();
        top.push(SLASH);
        assert(top@ =~= root());
        r.push(top);
        assert(pieces(r@) =~= seq![root()]);
    } else {
        assert(pieces(r@) =~= Seq::<Seq<u8>>::empty());
    }
    let ghost head = pieces(r@);
    let mut at: usize = 0;
    let mut first = true;
    let mut more = true;
    assert(b@.skip(0) =~= b@);
    while more
        invariant
            0 <= at <= b@.len(),
            more ==> pieces(r@) + parts(b@.skip(at as int), first) == head + parts(b@, true),
            !more ==> pieces(r@) == head + parts(b@, true),
        decreases b@.len() - at + (if more { 1int } else { 0 }),
    {
        let ghost rest = b@.skip(at as int);
        let mut end: usize = at;
        while end < b.len() && b[end] != SLASH
            invariant
                at <= end <= b@.len(),
                forall|i: int| at <= i < end ==> b@[i] != SLASH,
            decreases b@.len() - end,
        {
            end = end + 1;
        }
        proof {
            assert forall|i: int| 0 <= i < end - at implies rest[i] != SLASH by {
                assert(rest[i] == b@[at + i]);
            }
            lemma_segment_len_is(rest, end - at);
        }
        let segment = slice_subrange(b, at, end);
        let ghost before = pieces(r@);
        assert(segment@ =~= rest.take(end - at));
        let single_dot = segment.len() == 1 && segment[0] == DOT;
        assert(single_dot == (segment@ == here())) by {
            if single_dot {
                assert(segment@ =~= here());
            }
        }
        if segment.len() > 0 && (first || !single_dot) {
            r.push(slice_to_vec(segment));
            assert(pieces(r@) =~= before.push(segment@));
        }
        assert(pieces(r@) =~= before + kept(segment@, first));
        if end >= b.len() {
            more = false;
            assert(rest.take(end - at) =~= rest);
            assert(parts(rest, first) == kept(rest, first));
        } else {
            assert(rest.skip(end - at + 1) =~= b@.skip(end + 1));
            assert(before + (kept(segment@, first) + parts(b@.skip(end + 1), false))
                =~= pieces(r@) + parts(b@.skip(end + 1), false));
            at = end + 1;
            first = false;
        }
    }
    assert(head + parts(b@, true) =~= components(b@));
    r
}

/// Whether a path goes through the directory above at some point.
pub fn has_parent_component(p: &str) -> (r: bool)
    ensures
        r == goes_up(p@),
{
    let found = split(p);
    let ghost want = path_components(p@);
    let mut i: usize = 0;
    while i < found.len()
        invariant
            0 <= i <= found@.len(),
            pieces(found@) == want,
            want == path_components(p@),
            forall|j: int| 0 <= j < i ==> want[j] != above(),
        decreases found@.len() - i,
    {
        assert(want[i as int] == found@[i as int]@);
        let c: &Vec<u8> = &found[i];
        if c.len() == 2 && c[0] == DOT && c[1] == DOT {
            assert(want[i as int] =~= above());
            return true;
        }
        assert(want[i as int] != above());
        i = i + 1;
    }
    false
}

/// Whether a path lies under a base.
pub fn starts_with(p: &str, base: &str) -> (r: bool)
    ensures
        r == lies_under(p@, base@),
{
    let whole = split(p);
    let start = split(base);
    let ghost w = path_components(p@);
    let ghost s = path_components(base@);
    if start.len() > whole.len() {
        return false;
    }
    let mut i: usize = 0;
    while i < start.len()
        invariant
            0 <= i <= start@.len(),
            start@.len() <= whole@.len(),
            pieces(whole@) == w,
            pieces(start@) == s,
            w == path_components(p@),
            s == path_components(base@),
            forall|j: int| 0 <= j < i ==> w[j] == s[j],
        decreases start@.len() - i,
    {
        assert(w[i as int] == whole@[i as int]@);
        assert(s[i as int] == start@[i as int]@);
        if !text::same_bytes(whole[i].as_slice(), start[i].as_slice()) {
            assert(w.subrange(0, s.len() as int)[i as int] != s[i as int]);
            return false;
        }
        i = i + 1;
    }
    assert(w.subrange(0, s.len() as int) =~= s);
    true
}

/// One more component behind a path becomes its last component.
pub proof fn lemma_parts_join(b: Seq<u8>, name: Seq<u8>, first: bool)
    requires
        b.len() > 0 || !first,
        name.len() > 0,
        name != here(),
        !name.contains(SLASH),
    ensures
        parts(b + seq![SLASH] + name, first) == parts(b, first).push(name),
    decreases b.len(),
{
    let joined = b + seq![SLASH] + name;
    let n = segment_len(b) as int;
    lemma_segment_len(b);
    assert(joined[n] == SLASH) by {
        if n < b.len() {
            assert(joined[n] == b[n]);
        }
    }
    assert forall|i: int| 0 <= i < n implies joined[i] != SLASH by {
        assert(joined[i] == b[i]);
    }
    lemma_segment_len_is(joined, n);
    assert(joined.take(n) =~= b.take(n));
    if n < b.len() {
        let rest = b.skip(n + 1);
        assert(joined.skip(n + 1) =~= rest + seq![SLASH] + name);
        lemma_parts_join(rest, name, false);
        assert(parts(joined, first) =~= parts(b, first).push(name));
    } else {
        assert(b.take(n) =~= b);
        assert(joined.skip(n + 1) =~= name);
        assert forall|i: int| 0 <= i < name.len() implies name[i] != SLASH by {
            assert(name.contains(name[i]));
        }
        lemma_segment_len_is(name, name.len() as int);
        assert(parts(name, false) =~= seq![name]);
        assert(parts(joined, first) =~= parts(b, first).push(name));
    }
}

/// How a path is taken apart, piece by piece: a piece behind a slash is one more
/// component, unless it is empty or a single dot, which add nothing.
pub proof fn law_pieces_are_components(b: Seq<u8>, name: Seq<u8>)
    requires
        b.len() > 0,
        !name.contains(0x2f),
    ensures
        components(b + seq![0x2fu8] + name) == (if name.len() == 0 || name == seq![0x2eu8] {
            components(b)
        } else {
            components(b).push(name)
        }),
{
    let joined = b + seq![SLASH] + name;
    if name.len() == 0 || name == here() {
        lemma_parts_join_nothing(b, name, true);
    } else {
        lemma_parts_join(b, name, true);
        assert(components(joined) =~= components(b).push(name));
    }
    assert(joined[0] == b[0]);
}

/// How a path begins: a path without a slash is one component, and the slash of an
/// absolute path is a component of its own.
pub proof fn law_first_component(name: Seq<u8>)
    requires
        !name.contains(0x2f),
    ensures
        name.len() == 0 ==> components(name).len() == 0,
        name.len() > 0 ==> components(name) == seq![name],
        components(seq![0x2fu8]) == seq![seq![0x2fu8]],
{
    let slash = seq![SLASH];
    reveal_with_fuel(parts, 3);
    reveal_with_fuel(segment_len, 2);
    assert(slash.take(0) =~= Seq::<u8>::empty());
    assert(slash.skip(1) =~= Seq::<u8>::empty());
    assert(components(slash) =~= seq![slash]);
    assert forall|i: int| 0 <= i < name.len() implies name[i] != SLASH by {
        assert(name.contains(name[i]));
    }
    lemma_segment_len_is(name, name.len() as int);
    if name.len() > 0 {
        assert(name.contains(name[0]));
    }
}

/// Nothing, or a single dot, behind a path adds no component.
proof fn lemma_parts_join_nothing(b: Seq<u8>, name: Seq<u8>, first: bool)
    requires
        name.len() == 0 || name == here(),
    ensures
        parts(b + seq![SLASH] + name, first) == parts(b, first),
    decreases b.len(),
{
    let joined = b + seq![SLASH] + name;
    let n = segment_len(b) as int;
    lemma_segment_len(b);
    assert(joined[n] == SLASH) by {
        if n < b.len() {
            assert(joined[n] == b[n]);
        }
    }
    assert forall|i: int| 0 <= i < n implies joined[i] != SLASH by {
        assert(joined[i] == b[i]);
    }
    lemma_segment_len_is(joined, n);
    assert(joined.take(n) =~= b.take(n));
    if n < b.len() {
        assert(joined.skip(n + 1) =~= b.skip(n + 1) + seq![SLASH] + name);
        lemma_parts_join_nothing(b.skip(n + 1), name, false);
    } else {
        assert(b.take(n) =~= b);
        assert(joined.skip(n + 1) =~= name);
        lemma_segment_len_is(name, name.len() as int);
        assert(parts(name, false) =~= Seq::<Seq<u8>>::empty());
        assert(parts(joined, first) =~= parts(b, first));
    }
}

/// When a path leads up, and when it lies under another: one of its components is two
/// dots; its first components are those of the other.
pub proof fn law_where_a_path_leads(p: Seq<char>, base: Seq<char>)
    ensures
        goes_up(p) <==> exists|i: int|
            0 <= i < components(encode_utf8(p)).len() && #[trigger] components(encode_utf8(p))[i]
                == seq![0x2eu8, 0x2eu8],
        lies_under(p, base) <==> components(encode_utf8(base)).len() <= components(
            encode_utf8(p),
        ).len() && forall|i: int|
            0 <= i < components(encode_utf8(base)).len() ==> #[trigger] components(encode_utf8(p))[i]
                == components(encode_utf8(base))[i],
{
    let w = components(encode_utf8(p));
    let s = components(encode_utf8(base));
    if s.len() <= w.len() && forall|i: int| 0 <= i < s.len() ==> #[trigger] w[i] == s[i] {
        assert(w.subrange(0, s.len() as int) =~= s);
    }
    if lies_under(p, base) {
        assert forall|i: int| 0 <= i < s.len() implies #[trigger] w[i] == s[i] by {
            assert(w.subrange(0, s.len() as int)[i] == s[i]);
        }
    }
}

/// The components of a name in the root directory.
pub proof fn lemma_absolute(name: Seq<u8>)
    requires
        !name.contains(0x2f),
        name.len() > 0,
        name != here(),
    ensures
        components(seq![0x2fu8] + name) == seq![seq![0x2fu8], name],
{
    let whole = seq![SLASH] + name;
    let none = Seq::<u8>::empty();
    lemma_parts_join_first(name);
    assert(none + seq![SLASH] + name =~= whole);
    assert(components(whole) =~= seq![root(), name]);
}

/// A name behind the leading slash is the one component between slashes.
proof fn lemma_parts_join_first(name: Seq<u8>)
    requires
        !name.contains(SLASH),
        name.len() > 0,
        name != here(),
    ensures
        parts(seq![SLASH] + name, true) == seq![name],
{
    let whole = seq![SLASH] + name;
    lemma_segment_len_is(whole, 0);
    assert(whole.take(0) =~= Seq::<u8>::empty());
    assert(whole.skip(1) =~= name);
    assert forall|i: int| 0 <= i < name.len() implies name[i] != SLASH by {
        assert(name.contains(name[i]));
    }
    lemma_segment_len_is(name, name.len() as int);
    assert(parts(name, false) =~= seq![name]);
    assert(parts(whole, true) =~= seq![name]);
}

} // verus!
