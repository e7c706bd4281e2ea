//! The group forest: named groups owning ordered lists of subgroups.
//!
//! A forest is described by its outline: the preorder sequence of its nodes,
//! each with its depth, identifier and name. The outline determines the forest,
//! so insertion and deletion are stated as splicing a block into or out of it.
use vstd::prelude::*;
use crate::ident::{
    fresh_identifier, parse_identifier, parsed_identifier, identifier_text, identifier_text_of,
};
use crate::text::{append_chars, append_str, contains_ignoring_case, folded_contains, string_of};

verus! {

#[derive(Debug, PartialEq, Eq)]
pub struct Group {
    pub identifier: u128,
    pub name: String,
    pub subgroups: Vec<Group>,
}

/// One line of a forest's outline.
pub struct OutlineEntry {
    pub depth: nat,
    pub identifier: u128,
    pub name: Seq<char>,
}

/// The outline line of group `g` at depth `d`.
pub open spec fn entry(g: Group, d: nat) -> OutlineEntry {
    OutlineEntry { depth: d, identifier: g.identifier, name: g.name@ }
}

/// The preorder outline of the forest `f` whose roots sit at depth `d`.
pub open spec fn outline_at(f: Seq<Group>, d: nat) -> Seq<OutlineEntry>
    decreases f,
{
    if f.len() == 0 {
        Seq::empty()
    } else {
        seq![entry(f[0], d)] + outline_at(f[0].subgroups@, d + 1) + outline_at(
            f.subrange(1, f.len() as int),
            d,
        )
    }
}

/// The preorder outline of a forest of root groups.
pub open spec fn outline(f: Seq<Group>) -> Seq<OutlineEntry> {
    outline_at(f, 0)
}

/// Whether some line of the outline has identifier `id`.
pub open spec fn lists_id(o: Seq<OutlineEntry>, id: u128) -> bool {
    exists|k: int| 0 <= k < o.len() && (#[trigger] o[k]).identifier == id
}

/// Whether some group anywhere in the forest has identifier `id`.
pub open spec fn has_group(f: Seq<Group>, id: u128) -> bool {
    lists_id(outline(f), id)
}

/// Whether line `k` is the first line of the outline with identifier `id`.
pub open spec fn first_with_id(o: Seq<OutlineEntry>, id: u128, k: int) -> bool {
    &&& 0 <= k < o.len()
    &&& o[k].identifier == id
    &&& forall|j: int| 0 <= j < k ==> (#[trigger] o[j]).identifier != id
}

/// Whether lines `k .. e` are the node at line `k` and all of its descendants.
pub open spec fn block_end(o: Seq<OutlineEntry>, k: int, e: int) -> bool {
    &&& 0 <= k < e <= o.len()
    &&& forall|j: int| k < j < e ==> (#[trigger] o[j]).depth > o[k].depth
    &&& (e == o.len() || o[e].depth <= o[k].depth)
}

/// Whether no two groups of the outline share an identifier.
pub open spec fn ids_unique(o: Seq<OutlineEntry>) -> bool {
    forall|i: int, j: int|
        0 <= i < o.len() && 0 <= j < o.len() && i != j ==> (#[trigger] o[i]).identifier != (
        #[trigger] o[j]).identifier
}

/// What inserting `g` under the group `parent` did to a forest: when `parent`
/// is in `before`, `g`'s outline was spliced in right after the subtree of
/// the first such group, one level below it; otherwise nothing changed.
pub open spec fn insert_outcome(
    before: Seq<Group>,
    after: Seq<Group>,
    parent: u128,
    g: Group,
    r: bool,
) -> bool {
    let o = outline(before);
    &&& r == has_group(before, parent)
    &&& !r ==> after == before
    &&& r ==> exists|k: int, e: int|
        first_with_id(o, parent, k) && block_end(o, k, e) && outline(after) == o.take(e)
            + outline_at(seq![g], o[k].depth + 1) + o.skip(e)
}

/// What deleting `id` did to a forest: when `id` is in `before`, the subtree of
/// a group with that identifier was cut out of the outline; otherwise nothing
/// changed.
pub open spec fn delete_outcome(before: Seq<Group>, after: Seq<Group>, id: u128, r: bool) -> bool {
    let o = outline(before);
    &&& r == has_group(before, id)
    &&& !r ==> after == before
    &&& r ==> exists|k: int, e: int|
        0 <= k < o.len() && o[k].identifier == id && block_end(o, k, e) && outline(after)
            == o.take(k) + o.skip(e)
}

/// Whether an outline line's name contains `text`, ignoring case.
pub open spec fn name_has(text: Seq<char>) -> spec_fn(OutlineEntry) -> bool {
    |e: OutlineEntry| folded_contains(e.name, text)
}

/// The identifier on an outline line.
pub open spec fn line_id() -> spec_fn(OutlineEntry) -> u128 {
    |e: OutlineEntry| e.identifier
}

/// The identifiers of the outline's lines whose name contains `text`, ignoring case.
pub open spec fn named_ids(o: Seq<OutlineEntry>, text: Seq<char>) -> Seq<u128> {
    o.filter(name_has(text)).map_values(line_id())
}

/// Whether line `k` is the first line of the outline whose name contains `text`, ignoring case.
pub open spec fn first_named(o: Seq<OutlineEntry>, text: Seq<char>, k: int) -> bool {
    &&& 0 <= k < o.len()
    &&& folded_contains(o[k].name, text)
    &&& forall|j: int| 0 <= j < k ==> !folded_contains((#[trigger] o[j]).name, text)
}

/// The outline of a concatenation is the concatenation of the outlines.
pub proof fn lemma_outline_concat(a: Seq<Group>, b: Seq<Group>, d: nat)
    ensures
        outline_at(a + b, d) == outline_at(a, d) + outline_at(b, d),
    decreases a.len(),
{
    if a.len() == 0 {
        assert(a + b =~= b);
        assert(outline_at(a, d) + outline_at(b, d) =~= outline_at(b, d));
    } else {
        let ab = a + b;
        assert(ab[0] == a[0]);
        assert(ab.subrange(1, ab.len() as int) =~= a.subrange(1, a.len() as int) + b);
        lemma_outline_concat(a.subrange(1, a.len() as int), b, d);
        assert(outline_at(ab, d) =~= outline_at(a, d) + outline_at(b, d));
    }
}

/// The outline of a single group: its own line, then its subgroups one level deeper.
pub proof fn lemma_outline_single(g: Group, d: nat)
    ensures
        outline_at(seq![g], d) == seq![entry(g, d)] + outline_at(g.subgroups@, d + 1),
{
    let s = seq![g];
    assert(s.subrange(1, 1) =~= Seq::<Group>::empty());
    assert(s[0] == g);
    assert(outline_at(s.subrange(1, 1), d) =~= Seq::<OutlineEntry>::empty());
    assert(outline_at(s, d) == seq![entry(s[0], d)] + outline_at(s[0].subgroups@, d + 1)
        + outline_at(s.subrange(1, s.len() as int), d));
    assert(seq![entry(g, d)] + outline_at(g.subgroups@, d + 1) + Seq::<OutlineEntry>::empty()
        =~= seq![entry(g, d)] + outline_at(g.subgroups@, d + 1));
}

/// Every line of an outline lies at or below the depth of its roots.
pub proof fn lemma_outline_depth(f: Seq<Group>, d: nat)
    ensures
        forall|k: int| 0 <= k < outline_at(f, d).len() ==> (#[trigger] outline_at(f, d)[k]).depth >= d,
    decreases f,
{
    if f.len() > 0 {
        lemma_outline_depth(f[0].subgroups@, d + 1);
        lemma_outline_depth(f.subrange(1, f.len() as int), d);
        let a = seq![entry(f[0], d)];
        let b = outline_at(f[0].subgroups@, d + 1);
        let c = outline_at(f.subrange(1, f.len() as int), d);
        assert forall|k: int| 0 <= k < outline_at(f, d).len() implies (#[trigger] outline_at(
            f,
            d,
        )[k]).depth >= d by {
            if k < 1 {
            } else if k < 1 + b.len() {
                assert(outline_at(f, d)[k] == b[k - 1]);
            } else {
                assert(outline_at(f, d)[k] == c[k - 1 - b.len()]);
            }
        }
    }
}

/// The outline of the forest split at root `i`: the roots before it, its own
/// subtree, and the roots after it.
pub proof fn lemma_outline_split(f: Seq<Group>, i: int, d: nat)
    requires
        0 <= i < f.len(),
    ensures
        outline_at(f, d) == outline_at(f.take(i), d) + seq![entry(f[i], d)] + outline_at(
            f[i].subgroups@,
            d + 1,
        ) + outline_at(f.skip(i + 1), d),
        f.skip(i + 1).len() > 0 ==> outline_at(f.skip(i + 1), d)[0].depth == d,
{
    assert(f =~= f.take(i) + (seq![f[i]] + f.skip(i + 1)));
    lemma_outline_concat(f.take(i), seq![f[i]] + f.skip(i + 1), d);
    lemma_outline_concat(seq![f[i]], f.skip(i + 1), d);
    lemma_outline_single(f[i], d);
    let a = outline_at(f.take(i), d);
    let b = seq![entry(f[i], d)];
    let c = outline_at(f[i].subgroups@, d + 1);
    let e = outline_at(f.skip(i + 1), d);
    assert(a + (b + c + e) =~= a + b + c + e);
}

/// The outline of the first `i + 1` roots extends that of the first `i` by root `i`'s subtree.
pub proof fn lemma_outline_extend(f: Seq<Group>, i: int, d: nat)
    requires
        0 <= i < f.len(),
    ensures
        outline_at(f.take(i + 1), d) == outline_at(f.take(i), d) + seq![entry(f[i], d)]
            + outline_at(f[i].subgroups@, d + 1),
{
    assert(f.take(i + 1) =~= f.take(i) + seq![f[i]]);
    lemma_outline_concat(f.take(i), seq![f[i]], d);
    lemma_outline_single(f[i], d);
    let a = outline_at(f.take(i), d);
    assert(a + (seq![entry(f[i], d)] + outline_at(f[i].subgroups@, d + 1)) =~= a + seq![
        entry(f[i], d),
    ] + outline_at(f[i].subgroups@, d + 1));
}

/// A root's line followed by its subtree's lines forms the block it heads.
pub proof fn lemma_root_block(
    o: Seq<OutlineEntry>,
    a: Seq<OutlineEntry>,
    en: OutlineEntry,
    s: Seq<OutlineEntry>,
    c: Seq<OutlineEntry>,
)
    requires
        o == a + seq![en] + s + c,
        forall|j: int| 0 <= j < s.len() ==> (#[trigger] s[j]).depth >= en.depth + 1,
        c.len() > 0 ==> c[0].depth == en.depth,
    ensures
        block_end(o, a.len() as int, (a.len() + 1 + s.len()) as int),
        o.subrange(a.len() as int, (a.len() + 1 + s.len()) as int) == seq![en] + s,
{
    let k = a.len() as int;
    let e = (a.len() + 1 + s.len()) as int;
    assert(o[k] == en);
    assert forall|j: int| k < j < e implies (#[trigger] o[j]).depth > o[k].depth by {
        assert(o[j] == s[j - k - 1]);
    }
    if e < o.len() {
        assert(o[e] == c[0]);
    }
    assert(o.subrange(k, e) =~= seq![en] + s);
}

/// A block inside a root's subtree is a block of the whole outline.
pub proof fn lemma_inner_block(
    o: Seq<OutlineEntry>,
    a: Seq<OutlineEntry>,
    en: OutlineEntry,
    s: Seq<OutlineEntry>,
    c: Seq<OutlineEntry>,
    kk: int,
    ee: int,
)
    requires
        o == a + seq![en] + s + c,
        forall|j: int| 0 <= j < s.len() ==> (#[trigger] s[j]).depth >= en.depth + 1,
        c.len() > 0 ==> c[0].depth == en.depth,
        block_end(s, kk, ee),
    ensures
        block_end(o, a.len() + 1 + kk, a.len() + 1 + ee),
        o.subrange(a.len() + 1 + kk, a.len() + 1 + ee) == s.subrange(kk, ee),
        o[a.len() + 1 + kk] == s[kk],
{
    let k = a.len() + 1 + kk;
    let e = a.len() + 1 + ee;
    assert(o[k] == s[kk]);
    assert forall|j: int| k < j < e implies (#[trigger] o[j]).depth > o[k].depth by {
        assert(o[j] == s[j - a.len() - 1]);
    }
    if e < o.len() {
        if ee < s.len() {
            assert(o[e] == s[ee]);
        } else {
            assert(o[e] == c[0]);
        }
    }
    assert(o.subrange(k, e) =~= s.subrange(kk, ee));
}

/// The first group in preorder with identifier `id`, in the forest whose roots
/// sit at depth `d`.
fn find_at<'a>(f: &'a Vec<Group>, id: u128, Ghost(d): Ghost<nat>) -> (r: Option<&'a Group>)
    ensures
        match r {
            Some(g) => g.identifier == id && exists|k: int, e: int|
                first_with_id(outline_at(f@, d), id, k) && block_end(outline_at(f@, d), k, e)
                    && outline_at(seq![*g], outline_at(f@, d)[k].depth) == outline_at(
                    f@,
                    d,
                ).subrange(k, e),
            None => !lists_id(outline_at(f@, d), id),
        },
    decreases f@,
{
    let mut i: usize = 0;
    while i < f.len()
        invariant
            i <= f@.len(),
            !lists_id(outline_at(f@.take(i as int), d), id),
        decreases f@.len() - i,
    {
        let ghost a = outline_at(f@.take(i as int), d);
        let ghost s = outline_at(f@[i as int].subgroups@, d + 1);
        let ghost o = outline_at(f@, d);
        proof {
            lemma_outline_split(f@, i as int, d);
            lemma_outline_extend(f@, i as int, d);
        }
        if f[i].identifier == id {
            proof {
                let k = a.len() as int;
                let e = (a.len() + 1 + s.len()) as int;
                lemma_outline_depth(f@[i as int].subgroups@, d + 1);
                lemma_outline_single(f@[i as int], d);
                lemma_root_block(o, a, entry(f@[i as int], d), s, outline_at(f@.skip(i + 1), d));
                assert(o[k] == entry(f@[i as int], d));
                assert forall|j: int| 0 <= j < k implies (#[trigger] o[j]).identifier != id by {
                    assert(o[j] == a[j]);
                }
                assert(first_with_id(o, id, k));
                assert(outline_at(seq![f@[i as int]], o[k].depth) == o.subrange(k, e));
            }
            return Some(&f[i]);
        }
        proof {
            assert(decreases_to!(f@ => f@[i as int]));
        }
        match find_at(&f[i].subgroups, id, Ghost(d + 1)) {
            Some(g) => {
                proof {
                    let (kk, ee) = choose|kk: int, ee: int|
                        first_with_id(s, id, kk) && block_end(s, kk, ee) && outline_at(
                            seq![*g],
                            s[kk].depth,
                        ) == s.subrange(kk, ee);
                    let k = a.len() + 1 + kk;
                    let e = a.len() + 1 + ee;
                    lemma_outline_depth(f@[i as int].subgroups@, d + 1);
                    lemma_inner_block(o, a, entry(f@[i as int], d), s, outline_at(f@.skip(i + 1), d), kk, ee);
                    assert(o[k] == s[kk]);
                    assert forall|j: int| 0 <= j < k implies (#[trigger] o[j]).identifier != id by {
                        if j < a.len() {
                            assert(o[j] == a[j]);
                        } else if j > a.len() {
                            assert(o[j] == s[j - a.len() - 1]);
                        }
                    }
                    assert(first_with_id(o, id, k));
                    assert(outline_at(seq![*g], o[k].depth) == o.subrange(k, e));
                }
                return Some(g);
            },
            None => {},
        }
        proof {
            let t = outline_at(f@.take(i + 1), d);
            assert forall|j: int| 0 <= j < t.len() implies (#[trigger] t[j]).identifier != id by {
                if j < a.len() {
                    assert(t[j] == a[j]);
                } else if j > a.len() {
                    assert(t[j] == s[j - a.len() - 1]);
                }
            }
        }
        i = i + 1;
    }
    proof {
        assert(f@.take(i as int) =~= f@);
    }
    None
}

/// The first group in preorder whose name contains `text`, ignoring case, in
/// the forest whose roots sit at depth `d`.
fn find_named_at<'a>(f: &'a Vec<Group>, text: &str, Ghost(d): Ghost<nat>) -> (r: Option<&'a Group>)
    ensures
        match r {
            Some(g) => exists|k: int, e: int|
                first_named(outline_at(f@, d), text@, k) && block_end(outline_at(f@, d), k, e)
                    && outline_at(seq![*g], outline_at(f@, d)[k].depth) == outline_at(
                    f@,
                    d,
                ).subrange(k, e),
            None => forall|k: int|
                0 <= k < outline_at(f@, d).len() ==> !folded_contains(
                    (#[trigger] outline_at(f@, d)[k]).name,
                    text@,
                ),
        },
    decreases f@,
{
    let mut i: usize = 0;
    while i < f.len()
        invariant
            i <= f@.len(),
            forall|k: int|
                0 <= k < outline_at(f@.take(i as int), d).len() ==> !folded_contains(
                    (#[trigger] outline_at(f@.take(i as int), d)[k]).name,
                    text@,
                ),
        decreases f@.len() - i,
    {
        let ghost a = outline_at(f@.take(i as int), d);
        let ghost s = outline_at(f@[i as int].subgroups@, d + 1);
        let ghost o = outline_at(f@, d);
        proof {
            lemma_outline_split(f@, i as int, d);
            lemma_outline_extend(f@, i as int, d);
        }
        if contains_ignoring_case(f[i].name.as_str(), text) {
            proof {
                let k = a.len() as int;
                let e = (a.len() + 1 + s.len()) as int;
                lemma_outline_depth(f@[i as int].subgroups@, d + 1);
                lemma_outline_single(f@[i as int], d);
                lemma_root_block(o, a, entry(f@[i as int], d), s, outline_at(f@.skip(i + 1), d));
                assert(outline_at(seq![f@[i as int]], o[k].depth) == o.subrange(k, e));
                assert(o[k] == entry(f@[i as int], d));
                assert forall|j: int| 0 <= j < k implies !folded_contains(
                    (#[trigger] o[j]).name,
                    text@,
                ) by {
                    assert(o[j] == a[j]);
                }
                assert(first_named(o, text@, k));
            }
            return Some(&f[i]);
        }
        proof {
            assert(decreases_to!(f@ => f@[i as int]));
        }
        match find_named_at(&f[i].subgroups, text, Ghost(d + 1)) {
            Some(g) => {
                proof {
                    let (kk, ee) = choose|kk: int, ee: int|
                        first_named(s, text@, kk) && block_end(s, kk, ee) && outline_at(
                            seq![*g],
                            s[kk].depth,
                        ) == s.subrange(kk, ee);
                    let k = a.len() + 1 + kk;
                    let e = a.len() + 1 + ee;
                    lemma_outline_depth(f@[i as int].subgroups@, d + 1);
                    lemma_inner_block(o, a, entry(f@[i as int], d), s, outline_at(f@.skip(i + 1), d), kk, ee);
                    assert(outline_at(seq![*g], o[k].depth) == o.subrange(k, e));
                    assert(o[k] == s[kk]);
                    assert forall|j: int| 0 <= j < k implies !folded_contains(
                        (#[trigger] o[j]).name,
                        text@,
                    ) by {
                        if j < a.len() {
                            assert(o[j] == a[j]);
                        } else if j > a.len() {
                            assert(o[j] == s[j - a.len() - 1]);
                        }
                    }
                    assert(first_named(o, text@, k));
                }
                return Some(g);
            },
            None => {},
        }
        proof {
            let t = outline_at(f@.take(i + 1), d);
            assert forall|j: int| 0 <= j < t.len() implies !folded_contains(
                (#[trigger] t[j]).name,
                text@,
            ) by {
                if j < a.len() {
                    assert(t[j] == a[j]);
                } else if j > a.len() {
                    assert(t[j] == s[j - a.len() - 1]);
                }
            }
        }
        i = i + 1;
    }
    proof {
        assert(f@.take(i as int) =~= f@);
    }
    None
}

/// Appends to `out` the identifiers of the groups whose name contains `text`,
/// ignoring case, in preorder, in the forest whose roots sit at depth `d`.
fn collect_named_at(f: &Vec<Group>, text: &str, out: &mut Vec<u128>, Ghost(d): Ghost<nat>)
    ensures
        final(out)@ == old(out)@ + named_ids(outline_at(f@, d), text@),
    decreases f@,
{
    let ghost start = out@;
    let mut i: usize = 0;
    proof {
        assert(f@.take(0) =~= Seq::<Group>::empty());
        assert(named_ids(outline_at(f@.take(0), d), text@) =~= Seq::<u128>::empty()) by {
            reveal(Seq::filter);
        }
        assert(start + Seq::<u128>::empty() =~= start);
    }
    while i < f.len()
        invariant
            i <= f@.len(),
            out@ == start + named_ids(outline_at(f@.take(i as int), d), text@),
        decreases f@.len() - i,
    {
        let ghost a = outline_at(f@.take(i as int), d);
        let ghost s = outline_at(f@[i as int].subgroups@, d + 1);
        let ghost e = seq![entry(f@[i as int], d)];
        let ghost mid = out@;
        proof {
            lemma_outline_extend(f@, i as int, d);
            Seq::filter_distributes_over_add(a + e, s, name_has(text@));
            Seq::filter_distributes_over_add(a, e, name_has(text@));
            reveal_with_fuel(Seq::filter, 2);
            let fa = a.filter(name_has(text@));
            let fe = e.filter(name_has(text@));
            let fs = s.filter(name_has(text@));
            assert((fa + fe + fs).map_values(line_id()) =~= fa.map_values(line_id())
                + fe.map_values(line_id()) + fs.map_values(line_id()));
        }
        if contains_ignoring_case(f[i].name.as_str(), text) {
            out.push(f[i].identifier);
            proof {
                assert(e.drop_last() =~= Seq::<OutlineEntry>::empty());
                assert(e.filter(name_has(text@)).map_values(line_id()) =~= seq![
                    f@[i as int].identifier,
                ]);
            }
        } else {
            proof {
                assert(e.drop_last() =~= Seq::<OutlineEntry>::empty());
                assert(e.filter(name_has(text@)).map_values(line_id()) =~= Seq::<u128>::empty());
            }
        }
        let ghost mid2 = out@;
        proof {
            assert(decreases_to!(f@ => f@[i as int]));
        }
        collect_named_at(&f[i].subgroups, text, out, Ghost(d + 1));
        proof {
            let na = named_ids(a, text@);
            let ne = e.filter(name_has(text@)).map_values(line_id());
            let ns = named_ids(s, text@);
            assert(named_ids(outline_at(f@.take(i + 1), d), text@) == na + ne + ns);
            assert(out@ =~= start + (na + ne + ns));
        }
        i = i + 1;
    }
    proof {
        assert(f@.take(i as int) =~= f@);
    }
}

/// Appends `g` as the last child of the first group in preorder with
/// identifier `parent`, in the forest whose roots sit at depth `d`.
#[verifier::rlimit(40)]
fn insert_at(f: &mut Vec<Group>, parent: u128, g: Group, Ghost(d): Ghost<nat>) -> (r: bool)
    ensures
        ({
            let o = outline_at(old(f)@, d);
            &&& r == lists_id(o, parent)
            &&& !r ==> final(f)@ == old(f)@
            &&& r ==> exists|k: int, e: int|
                first_with_id(o, parent, k) && block_end(o, k, e) && outline_at(final(f)@, d)
                    == o.take(e) + outline_at(seq![g], o[k].depth + 1) + o.skip(e)
        }),
    decreases old(f)@,
{
    let ghost f0 = f@;
    let ghost o = outline_at(f0, d);
    let mut i: usize = 0;
    while i < f.len()
        invariant
            i <= f@.len(),
            f@ == f0,
            f0 == old(f)@,
            o == outline_at(f0, d),
            !lists_id(outline_at(f0.take(i as int), d), parent),
        decreases f@.len() - i,
    {
        let ghost a = outline_at(f0.take(i as int), d);
        let ghost sub = f0[i as int].subgroups@;
        let ghost s = outline_at(sub, d + 1);
        let ghost c = outline_at(f0.skip(i + 1), d);
        let ghost en = entry(f0[i as int], d);
        proof {
            lemma_outline_split(f0, i as int, d);
            lemma_outline_extend(f0, i as int, d);
            lemma_outline_depth(sub, d + 1);
        }
        if f[i].identifier == parent {
            f[i].subgroups.push(g);
            proof {
                let f1 = f@;
                let k = a.len() as int;
                let e = (a.len() + 1 + s.len()) as int;
                let gs = outline_at(seq![g], d + 1);
                lemma_outline_split(f1, i as int, d);
                assert(f1.take(i as int) =~= f0.take(i as int));
                assert(f1.skip(i + 1) =~= f0.skip(i + 1));
                assert(f1[i as int].subgroups@ =~= sub + seq![g]);
                lemma_outline_concat(sub, seq![g], d + 1);
                assert(o[k] == en);
                assert forall|j: int| 0 <= j < k implies (#[trigger] o[j]).identifier != parent by {
                    assert(o[j] == a[j]);
                }
                assert forall|j: int| k < j < e implies (#[trigger] o[j]).depth > o[k].depth by {
                    assert(o[j] == s[j - k - 1]);
                }
                if e < o.len() {
                    assert(o[e] == c[0]);
                }
                assert(block_end(o, k, e));
                assert(outline_at(f1, d) =~= o.take(e) + gs + o.skip(e));
                assert(o[k].depth == d);
                assert(first_with_id(o, parent, k) && block_end(o, k, e) && outline_at(f1, d)
                    == o.take(e) + outline_at(seq![g], o[k].depth + 1) + o.skip(e));
                assert(lists_id(o, parent));
            }
            return true;
        }
        proof {
            assert(decreases_to!(f0 => f0[i as int]));
            assert(decreases_to!(f0[i as int] => f0[i as int].subgroups));
            assert(decreases_to!(f0[i as int].subgroups => f0[i as int].subgroups@));
        }
        if find_at(&f[i].subgroups, parent, Ghost(d + 1)).is_some() {
            let ok = insert_at(&mut f[i].subgroups, parent, g, Ghost(d + 1));
            proof {
                let f1 = f@;
                let sub1 = f1[i as int].subgroups@;
                let (kk, ee) = choose|kk: int, ee: int|
                    first_with_id(s, parent, kk) && block_end(s, kk, ee) && outline_at(sub1, d + 1)
                        == s.take(ee) + outline_at(seq![g], s[kk].depth + 1) + s.skip(ee);
                let k = a.len() + 1 + kk;
                let e = a.len() + 1 + ee;
                let gs = outline_at(seq![g], s[kk].depth + 1);
                lemma_outline_split(f1, i as int, d);
                assert(f1.take(i as int) =~= f0.take(i as int));
                assert(f1.skip(i + 1) =~= f0.skip(i + 1));
                assert(o[k] == s[kk]);
                assert forall|j: int| 0 <= j < k implies (#[trigger] o[j]).identifier != parent by {
                    if j < a.len() {
                        assert(o[j] == a[j]);
                    } else if j > a.len() {
                        assert(o[j] == s[j - a.len() - 1]);
                    }
                }
                assert forall|j: int| k < j < e implies (#[trigger] o[j]).depth > o[k].depth by {
                    assert(o[j] == s[j - a.len() - 1]);
                }
                if e < o.len() {
                    if ee < s.len() {
                        assert(o[e] == s[ee]);
                    } else {
                        assert(o[e] == c[0]);
                    }
                }
                assert(block_end(o, k, e));
                assert(outline_at(f1, d) =~= o.take(e) + gs + o.skip(e));
                assert(first_with_id(o, parent, k) && block_end(o, k, e) && outline_at(f1, d)
                    == o.take(e) + outline_at(seq![g], o[k].depth + 1) + o.skip(e));
                assert(lists_id(o, parent));
            }
            return true;
        }
        proof {
            let t = outline_at(f0.take(i + 1), d);
            assert forall|j: int| 0 <= j < t.len() implies (#[trigger] t[j]).identifier != parent by {
                if j < a.len() {
                    assert(t[j] == a[j]);
                } else if j > a.len() {
                    assert(t[j] == s[j - a.len() - 1]);
                }
            }
        }
        i = i + 1;
    }
    proof {
        assert(f0.take(i as int) =~= f0);
    }
    false
}

/// Removes a group with identifier `id` and its subtree: a root when one has
/// it, else from within the first root whose subtree has it; in the forest
/// whose roots sit at depth `d`.
#[verifier::rlimit(40)]
fn delete_at(f: &mut Vec<Group>, id: u128, Ghost(d): Ghost<nat>) -> (r: bool)
    ensures
        ({
            let o = outline_at(old(f)@, d);
            &&& r == lists_id(o, id)
            &&& !r ==> final(f)@ == old(f)@
            &&& r ==> exists|k: int, e: int|
                0 <= k < o.len() && o[k].identifier == id && block_end(o, k, e) && outline_at(
                    final(f)@,
                    d,
                ) == o.take(k) + o.skip(e)
        }),
    decreases old(f)@,
{
    let ghost f0 = f@;
    let ghost o = outline_at(f0, d);
    let mut i: usize = 0;
    while i < f.len()
        invariant
            i <= f@.len(),
            f@ == f0,
            f0 == old(f)@,
            o == outline_at(f0, d),
            forall|j: int| 0 <= j < i ==> (#[trigger] f0[j]).identifier != id,
        decreases f@.len() - i,
    {
        if f[i].identifier == id {
            proof {
                let a = outline_at(f0.take(i as int), d);
                let s = outline_at(f0[i as int].subgroups@, d + 1);
                let c = outline_at(f0.skip(i + 1), d);
                lemma_outline_split(f0, i as int, d);
                lemma_outline_depth(f0[i as int].subgroups@, d + 1);
                let k = a.len() as int;
                let e = (a.len() + 1 + s.len()) as int;
                assert(o[k] == entry(f0[i as int], d));
                assert forall|j: int| k < j < e implies (#[trigger] o[j]).depth > o[k].depth by {
                    assert(o[j] == s[j - k - 1]);
                }
                if e < o.len() {
                    assert(o[e] == c[0]);
                }
                assert(block_end(o, k, e));
                assert(f0.remove(i as int) =~= f0.take(i as int) + f0.skip(i + 1));
                lemma_outline_concat(f0.take(i as int), f0.skip(i + 1), d);
                assert(o.take(k) + o.skip(e) =~= a + c);
                assert(lists_id(o, id));
            }
            f.remove(i);
            proof {
                let k = outline_at(f0.take(i as int), d).len() as int;
                let e = (k + 1 + outline_at(f0[i as int].subgroups@, d + 1).len()) as int;
                assert(f@ == f0.remove(i as int));
                assert(0 <= k < o.len() && o[k].identifier == id && block_end(o, k, e)
                    && outline_at(f@, d) == o.take(k) + o.skip(e));
            }
            return true;
        }
        i = i + 1;
    }
    let mut i: usize = 0;
    while i < f.len()
        invariant
            i <= f@.len(),
            f@ == f0,
            f0 == old(f)@,
            o == outline_at(f0, d),
            forall|j: int| 0 <= j < f0.len() ==> (#[trigger] f0[j]).identifier != id,
            !lists_id(outline_at(f0.take(i as int), d), id),
        decreases f@.len() - i,
    {
        let ghost a = outline_at(f0.take(i as int), d);
        let ghost sub = f0[i as int].subgroups@;
        let ghost s = outline_at(sub, d + 1);
        let ghost c = outline_at(f0.skip(i + 1), d);
        proof {
            lemma_outline_split(f0, i as int, d);
            lemma_outline_extend(f0, i as int, d);
            lemma_outline_depth(sub, d + 1);
            assert(decreases_to!(f0 => f0[i as int]));
            assert(decreases_to!(f0[i as int] => f0[i as int].subgroups));
            assert(decreases_to!(f0[i as int].subgroups => f0[i as int].subgroups@));
        }
        if find_at(&f[i].subgroups, id, Ghost(d + 1)).is_some() {
            let ok = delete_at(&mut f[i].subgroups, id, Ghost(d + 1));
            proof {
                let f1 = f@;
                let sub1 = f1[i as int].subgroups@;
                let (kk, ee) = choose|kk: int, ee: int|
                    0 <= kk < s.len() && s[kk].identifier == id && block_end(s, kk, ee)
                        && outline_at(sub1, d + 1) == s.take(kk) + s.skip(ee);
                let k = a.len() + 1 + kk;
                let e = a.len() + 1 + ee;
                lemma_outline_split(f1, i as int, d);
                assert(f1.take(i as int) =~= f0.take(i as int));
                assert(f1.skip(i + 1) =~= f0.skip(i + 1));
                assert(o[k] == s[kk]);
                assert forall|j: int| k < j < e implies (#[trigger] o[j]).depth > o[k].depth by {
                    assert(o[j] == s[j - a.len() - 1]);
                }
                if e < o.len() {
                    if ee < s.len() {
                        assert(o[e] == s[ee]);
                    } else {
                        assert(o[e] == c[0]);
                    }
                }
                assert(block_end(o, k, e));
                assert(outline_at(f1, d) =~= o.take(k) + o.skip(e));
                assert(0 <= k < o.len() && o[k].identifier == id && block_end(o, k, e)
                    && outline_at(f1, d) == o.take(k) + o.skip(e));
                assert(lists_id(o, id));
            }
            return true;
        }
        proof {
            let t = outline_at(f0.take(i + 1), d);
            assert forall|j: int| 0 <= j < t.len() implies (#[trigger] t[j]).identifier != id by {
                if j < a.len() {
                    assert(t[j] == a[j]);
                } else if j > a.len() {
                    assert(t[j] == s[j - a.len() - 1]);
                } else {
                    assert(t[j] == entry(f0[i as int], d));
                }
            }
        }
        i = i + 1;
    }
    proof {
        assert(f0.take(i as int) =~= f0);
    }
    false
}

/// Inserting a group whose identifier is new to the forest makes it findable
/// exactly when the parent was in the forest.
pub proof fn law_insert_then_find(before: Seq<Group>, after: Seq<Group>, parent: u128, g: Group, r: bool)
    requires
        insert_outcome(before, after, parent, g, r),
        !has_group(before, g.identifier),
    ensures
        has_group(after, g.identifier) == has_group(before, parent),
{
    if r {
        let o = outline(before);
        let (k, e) = choose|k: int, e: int|
            first_with_id(o, parent, k) && block_end(o, k, e) && outline(after) == o.take(e)
                + outline_at(seq![g], o[k].depth + 1) + o.skip(e);
        lemma_outline_single(g, o[k].depth + 1);
        let gs = outline_at(seq![g], o[k].depth + 1);
        assert(gs[0] == entry(g, o[k].depth + 1));
        assert(outline(after)[e] == gs[0]);
        assert(lists_id(outline(after), g.identifier));
    }
}

/// In a forest whose identifiers are unique, deleting a group leaves no group
/// with its identifier, and deleting it again reports `false` and changes nothing.
pub proof fn law_delete_idempotent(before: Seq<Group>, after: Seq<Group>, id: u128, r: bool)
    requires
        delete_outcome(before, after, id, r),
        ids_unique(outline(before)),
    ensures
        r == has_group(before, id),
        !has_group(after, id),
        forall|again: Seq<Group>, r2: bool|
            delete_outcome(after, again, id, r2) ==> !r2 && again == after,
{
    if r {
        let o = outline(before);
        let (k, e) = choose|k: int, e: int|
            0 <= k < o.len() && o[k].identifier == id && block_end(o, k, e) && outline(after)
                == o.take(k) + o.skip(e);
        let oa = outline(after);
        assert forall|j: int| 0 <= j < oa.len() implies (#[trigger] oa[j]).identifier != id by {
            if j < k {
                assert(oa[j] == o[j]);
            } else {
                assert(oa[j] == o[j - k + e]);
            }
        }
    }
}

/// Two spaces for each level of depth.
pub open spec fn indent(d: nat) -> Seq<char>
    decreases d,
{
    if d == 0 {
        Seq::empty()
    } else {
        indent((d - 1) as nat) + "  "@
    }
}

/// The display line of one outline entry: indentation for its depth, the
/// identifier and a tab when `show_ids` is set, then the name.
pub open spec fn display_line(e: OutlineEntry, show_ids: bool) -> Seq<char> {
    indent(e.depth) + (if show_ids {
        identifier_text_of(e.identifier) + "\t"@
    } else {
        Seq::empty()
    }) + e.name + "\n"@
}

/// The display of an outline: its lines, in order.
pub open spec fn display_lines(o: Seq<OutlineEntry>, show_ids: bool) -> Seq<char>
    decreases o.len(),
{
    if o.len() == 0 {
        Seq::empty()
    } else {
        display_lines(o.drop_last(), show_ids) + display_line(o.last(), show_ids)
    }
}

/// The display of concatenated outlines is the concatenation of their displays.
pub proof fn lemma_display_concat(a: Seq<OutlineEntry>, b: Seq<OutlineEntry>, show_ids: bool)
    ensures
        display_lines(a + b, show_ids) == display_lines(a, show_ids) + display_lines(b, show_ids),
    decreases b.len(),
{
    if b.len() == 0 {
        assert(a + b =~= a);
        assert(display_lines(a, show_ids) + display_lines(b, show_ids) =~= display_lines(a, show_ids));
    } else {
        assert((a + b).drop_last() =~= a + b.drop_last());
        assert((a + b).last() == b.last());
        lemma_display_concat(a, b.drop_last(), show_ids);
        let x = display_lines(a, show_ids);
        let y = display_lines(b.drop_last(), show_ids);
        let z = display_line(b.last(), show_ids);
        assert(x + y + z =~= x + (y + z));
    }
}

/// Appends the display of the forest whose roots sit at depth `d`, indented by `prefix`.
fn display_at(f: &Vec<Group>, prefix: &Vec<char>, show_ids: bool, out: &mut Vec<char>, Ghost(d): Ghost<nat>)
    requires
        prefix@ == indent(d),
    ensures
        final(out)@ == old(out)@ + display_lines(outline_at(f@, d), show_ids),
    decreases f@,
{
    let ghost start = out@;
    let mut deeper = prefix.clone();
    append_str(&mut deeper, "  ");
    let mut i: usize = 0;
    proof {
        assert(f@.take(0) =~= Seq::<Group>::empty());
        assert(start + display_lines(outline_at(f@.take(0), d), show_ids) =~= start);
    }
    while i < f.len()
        invariant
            i <= f@.len(),
            prefix@ == indent(d),
            deeper@ == indent(d + 1),
            out@ == start + display_lines(outline_at(f@.take(i as int), d), show_ids),
        decreases f@.len() - i,
    {
        let ghost a = outline_at(f@.take(i as int), d);
        let ghost en = seq![entry(f@[i as int], d)];
        let ghost s = outline_at(f@[i as int].subgroups@, d + 1);
        proof {
            lemma_outline_extend(f@, i as int, d);
            lemma_display_concat(a + en, s, show_ids);
            lemma_display_concat(a, en, show_ids);
            assert(en.drop_last() =~= Seq::<OutlineEntry>::empty());
            assert(en.last() == entry(f@[i as int], d));
            assert(display_lines(en.drop_last(), show_ids) == Seq::<char>::empty());
            assert(display_lines(en, show_ids) =~= display_line(entry(f@[i as int], d), show_ids));
        }
        let ghost mid = out@;
        append_chars(out, prefix);
        if show_ids {
            let id_text = identifier_text(f[i].identifier);
            append_str(out, id_text.as_str());
            append_str(out, "\t");
        }
        append_str(out, f[i].name.as_str());
        append_str(out, "\n");
        proof {
            assert(out@ =~= mid + display_line(entry(f@[i as int], d), show_ids));
            assert(decreases_to!(f@ => f@[i as int]));
        }
        display_at(&f[i].subgroups, &deeper, show_ids, out, Ghost(d + 1));
        proof {
            let x = display_lines(a, show_ids);
            let y = display_lines(en, show_ids);
            let z = display_lines(s, show_ids);
            assert(out@ =~= start + (x + y + z));
        }
        i = i + 1;
    }
    proof {
        assert(f@.take(i as int) =~= f@);
    }
}

/// An outline's lines carry the same identifiers whatever depth its roots sit at.
pub proof fn lemma_outline_ids_any_depth(f: Seq<Group>, d1: nat, d2: nat)
    ensures
        outline_at(f, d1).len() == outline_at(f, d2).len(),
        forall|j: int|
            0 <= j < outline_at(f, d1).len() ==> (#[trigger] outline_at(f, d1)[j]).identifier
                == outline_at(f, d2)[j].identifier,
    decreases f,
{
    if f.len() > 0 {
        let sub = f[0].subgroups@;
        let rest = f.subrange(1, f.len() as int);
        lemma_outline_ids_any_depth(sub, d1 + 1, d2 + 1);
        lemma_outline_ids_any_depth(rest, d1, d2);
        let o1 = outline_at(f, d1);
        let o2 = outline_at(f, d2);
        let b1 = outline_at(sub, d1 + 1);
        let b2 = outline_at(sub, d2 + 1);
        let c1 = outline_at(rest, d1);
        let c2 = outline_at(rest, d2);
        assert forall|j: int| 0 <= j < o1.len() implies (#[trigger] o1[j]).identifier
            == o2[j].identifier by {
            if j == 0 {
            } else if j < 1 + b1.len() {
                assert(o1[j] == b1[j - 1]);
                assert(o2[j] == b2[j - 1]);
            } else {
                assert(o1[j] == c1[j - 1 - b1.len()]);
                assert(o2[j] == c2[j - 1 - b2.len()]);
            }
        }
    }
}

/// Inserting a group whose own identifiers are unique and new to a forest with
/// unique identifiers keeps them unique.
pub proof fn law_insert_keeps_ids_unique(
    before: Seq<Group>,
    after: Seq<Group>,
    parent: u128,
    g: Group,
    r: bool,
)
    requires
        insert_outcome(before, after, parent, g, r),
        ids_unique(outline(before)),
        ids_unique(outline(seq![g])),
        forall|j: int|
            0 <= j < outline(seq![g]).len() ==> !has_group(
                before,
                (#[trigger] outline(seq![g])[j]).identifier,
            ),
    ensures
        ids_unique(outline(after)),
{
    if r {
        let o = outline(before);
        let (k, e) = choose|k: int, e: int|
            first_with_id(o, parent, k) && block_end(o, k, e) && outline(after) == o.take(e)
                + outline_at(seq![g], o[k].depth + 1) + o.skip(e);
        let gs = outline_at(seq![g], o[k].depth + 1);
        let g0 = outline(seq![g]);
        lemma_outline_ids_any_depth(seq![g], o[k].depth + 1, 0);
        let oa = outline(after);
        assert(oa.len() == o.len() + gs.len());
        // Where each line of the new outline comes from.
        assert forall|x: int| 0 <= x < oa.len() implies (x < e ==> (#[trigger] oa[x]) == o[x]) && (e
            <= x < e + gs.len() ==> oa[x].identifier == g0[x - e].identifier) && (x >= e
            + gs.len() ==> oa[x] == o[x - gs.len()]) by {
            if e <= x < e + gs.len() {
                assert(oa[x] == gs[x - e]);
            }
        }
        assert forall|x: int, y: int|
            0 <= x < oa.len() && 0 <= y < oa.len() && x != y implies (#[trigger] oa[x]).identifier
            != (#[trigger] oa[y]).identifier by {
            let in_x = e <= x < e + gs.len();
            let in_y = e <= y < e + gs.len();
            if in_x && in_y {
            } else if in_x {
                let oy = if y < e { y } else { y - gs.len() };
                assert(oa[y] == o[oy]);
                assert(!has_group(before, g0[x - e].identifier));
            } else if in_y {
                let ox = if x < e { x } else { x - gs.len() };
                assert(oa[x] == o[ox]);
                assert(!has_group(before, g0[y - e].identifier));
            } else {
                let ox = if x < e { x } else { x - gs.len() };
                let oy = if y < e { y } else { y - gs.len() };
                assert(oa[x] == o[ox]);
                assert(oa[y] == o[oy]);
            }
        }
    }
}

/// Deleting a group keeps the identifiers of a forest unique.
pub proof fn law_delete_keeps_ids_unique(before: Seq<Group>, after: Seq<Group>, id: u128, r: bool)
    requires
        delete_outcome(before, after, id, r),
        ids_unique(outline(before)),
    ensures
        ids_unique(outline(after)),
{
    if r {
        let o = outline(before);
        let (k, e) = choose|k: int, e: int|
            0 <= k < o.len() && o[k].identifier == id && block_end(o, k, e) && outline(after)
                == o.take(k) + o.skip(e);
        let oa = outline(after);
        assert forall|x: int, y: int|
            0 <= x < oa.len() && 0 <= y < oa.len() && x != y implies (#[trigger] oa[x]).identifier
            != (#[trigger] oa[y]).identifier by {
            let ox = if x < k { x } else { x - k + e };
            let oy = if y < k { y } else { y - k + e };
            assert(oa[x] == o[ox]);
            assert(oa[y] == o[oy]);
        }
    }
}

/// Appends to `out` the identifiers of every group in preorder, in the forest
/// whose roots sit at depth `d`.
fn collect_ids_at(f: &Vec<Group>, out: &mut Vec<u128>, Ghost(d): Ghost<nat>)
    ensures
        final(out)@ == old(out)@ + outline_at(f@, d).map_values(line_id()),
    decreases f@,
{
    let ghost start = out@;
    let mut i: usize = 0;
    proof {
        assert(f@.take(0) =~= Seq::<Group>::empty());
        assert(start + outline_at(f@.take(0), d).map_values(line_id()) =~= start);
    }
    while i < f.len()
        invariant
            i <= f@.len(),
            out@ == start + outline_at(f@.take(i as int), d).map_values(line_id()),
        decreases f@.len() - i,
    {
        let ghost a = outline_at(f@.take(i as int), d);
        let ghost e = seq![entry(f@[i as int], d)];
        let ghost s = outline_at(f@[i as int].subgroups@, d + 1);
        proof {
            lemma_outline_extend(f@, i as int, d);
            assert(decreases_to!(f@ => f@[i as int]));
        }
        out.push(f[i].identifier);
        collect_ids_at(&f[i].subgroups, out, Ghost(d + 1));
        proof {
            assert((a + e + s).map_values(line_id()) =~= a.map_values(line_id()) + seq![
                f@[i as int].identifier,
            ] + s.map_values(line_id()));
            assert(out@ =~= start + outline_at(f@.take(i + 1), d).map_values(line_id()));
        }
        i = i + 1;
    }
    proof {
        assert(f@.take(i as int) =~= f@);
    }
}

/// The identifiers listed by an outline are those of its lines.
pub proof fn lemma_ids_listed(o: Seq<OutlineEntry>, x: u128)
    ensures
        o.map_values(line_id()).contains(x) == lists_id(o, x),
{
    if lists_id(o, x) {
        let k = choose|k: int| 0 <= k < o.len() && (#[trigger] o[k]).identifier == x;
        assert(o.map_values(line_id())[k] == x);
    }
}

/// Draws random identifiers until one is new to the forest, giving up after a
/// few draws.
fn fresh_group_identifier(forest: &Vec<Group>) -> (r: Option<u128>)
    ensures
        r is Some ==> !has_group(forest@, r->0),
{
    let mut tries: usize = 0;
    while tries < 8
        invariant
            tries <= 8,
        decreases 8 - tries,
    {
        let id = fresh_identifier();
        if !Group::contains(forest, id) {
            return Some(id);
        }
        tries = tries + 1;
    }
    None
}

impl Group {
    /// A new group without subgroups whose identifier is new to `forest`;
    /// `None` in the unlikely case that no fresh identifier was drawn.
    pub fn new_in(forest: &Vec<Group>, name: String) -> (r: Option<Group>)
        ensures
            r is Some ==> !has_group(forest@, r->0.identifier) && r->0.name == name
                && r->0.subgroups@.len() == 0,
    {
        match fresh_group_identifier(forest) {
            Some(id) => Some(Group { identifier: id, name, subgroups: Vec::new() }),
            None => None,
        }
    }

    /// The identifiers of every group in the forest, in preorder.
    pub fn identifiers(forest: &Vec<Group>) -> (r: Vec<u128>)
        ensures
            r@ == outline(forest@).map_values(line_id()),
    {
        let mut out: Vec<u128> = Vec::new();
        collect_ids_at(forest, &mut out, Ghost(0));
        proof {
            assert(Seq::<u128>::empty() + outline(forest@).map_values(line_id()) =~= outline(
                forest@,
            ).map_values(line_id()));
        }
        out
    }

    /// The forest as an indented outline, one line per group in preorder,
    /// each prefixed by its identifier when `show_ids` is set.
    pub fn display_forest(forest: &Vec<Group>, show_ids: bool) -> (r: String)
        ensures
            r@ == display_lines(outline(forest@), show_ids),
    {
        let mut out: Vec<char> = Vec::new();
        let prefix: Vec<char> = Vec::new();
        proof {
            assert(prefix@ =~= indent(0));
        }
        display_at(forest, &prefix, show_ids, &mut out, Ghost(0));
        proof {
            assert(Seq::<char>::empty() + display_lines(outline(forest@), show_ids) =~= display_lines(
                outline(forest@),
                show_ids,
            ));
        }
        string_of(&out)
    }

    /// Removes the first direct subgroup with `child`'s identifier, reporting
    /// either way in a message that names both groups.
    pub fn remove_subgroup(&mut self, child: &Group) -> (r: Result<String, String>)
        ensures
            final(self).identifier == old(self).identifier,
            final(self).name == old(self).name,
            ({
                let subs = old(self).subgroups@;
                let found = exists|i: int|
                    0 <= i < subs.len() && (#[trigger] subs[i]).identifier == child.identifier;
                &&& found ==> exists|i: int|
                    0 <= i < subs.len() && subs[i].identifier == child.identifier && (forall|j: int|
                        0 <= j < i ==> (#[trigger] subs[j]).identifier != child.identifier)
                        && final(self).subgroups@ == subs.remove(i)
                &&& found ==> r is Ok && r->Ok_0@ == "Group "@ + child.name@
                    + " is no longer subgroup of "@ + old(self).name@
                &&& !found ==> final(self).subgroups@ == subs
                &&& !found ==> r is Err && r->Err_0@ == "Group "@ + child.name@
                    + " cannot be removed as subgroup of "@ + old(self).name@
            }),
    {
        let ghost subs = self.subgroups@;
        let mut i: usize = 0;
        while i < self.subgroups.len()
            invariant
                i <= self.subgroups@.len(),
                self.subgroups@ == subs,
                subs == old(self).subgroups@,
                self.identifier == old(self).identifier,
                self.name == old(self).name,
                forall|j: int| 0 <= j < i ==> (#[trigger] subs[j]).identifier != child.identifier,
            decreases self.subgroups@.len() - i,
        {
            if self.subgroups[i].identifier == child.identifier {
                self.subgroups.remove(i);
                let mut out: Vec<char> = Vec::new();
                append_str(&mut out, "Group ");
                append_str(&mut out, child.name.as_str());
                append_str(&mut out, " is no longer subgroup of ");
                append_str(&mut out, self.name.as_str());
                return Ok(string_of(&out));
            }
            i = i + 1;
        }
        let mut out: Vec<char> = Vec::new();
        append_str(&mut out, "Group ");
        append_str(&mut out, child.name.as_str());
        append_str(&mut out, " cannot be removed as subgroup of ");
        append_str(&mut out, self.name.as_str());
        Err(string_of(&out))
    }

    /// A new group without subgroups, with a fresh random identifier.
    pub fn new(name: String) -> (r: Group)
        ensures
            r.name == name,
            r.subgroups@.len() == 0,
    {
        Group { identifier: fresh_identifier(), name, subgroups: Vec::new() }
    }

    /// The group with identifier `id`, found depth-first.
    pub fn find_by_id<'a>(forest: &'a Vec<Group>, id: u128) -> (r: Option<&'a Group>)
        ensures
            match r {
                Some(g) => g.identifier == id && exists|k: int, e: int|
                    first_with_id(outline(forest@), id, k) && block_end(outline(forest@), k, e)
                        && outline_at(seq![*g], outline(forest@)[k].depth) == outline(
                        forest@,
                    ).subrange(k, e),
                None => !has_group(forest@, id),
            },
    {
        let r = find_at(forest, id, Ghost(0));
        proof {
            if let Some(g) = r {
                let o = outline_at(forest@, 0);
                let (k, e) = choose|k: int, e: int|
                    first_with_id(o, id, k) && block_end(o, k, e) && outline_at(seq![*g], o[k].depth)
                        == o.subrange(k, e);
                assert(first_with_id(outline(forest@), id, k) && block_end(outline(forest@), k, e)
                    && outline_at(seq![*g], outline(forest@)[k].depth) == outline(forest@).subrange(k, e));
            }
        }
        r
    }

    /// Appends `group` as the last child of the group with identifier
    /// `parent_id`, found depth-first; `false`, with the forest unchanged, when
    /// no group has that identifier.
    pub fn insert_under(forest: &mut Vec<Group>, parent_id: u128, group: Group) -> (r: bool)
        ensures
            insert_outcome(old(forest)@, final(forest)@, parent_id, group, r),
    {
        let ghost f0 = forest@;
        let ghost g = group;
        let r = insert_at(forest, parent_id, group, Ghost(0));
        proof {
            let o = outline(f0);
            if r {
                let (k, e) = choose|k: int, e: int|
                    first_with_id(o, parent_id, k) && block_end(o, k, e) && outline_at(forest@, 0)
                        == o.take(e) + outline_at(seq![g], o[k].depth + 1) + o.skip(e);
                assert(outline(forest@) == o.take(e) + outline_at(seq![g], o[k].depth + 1) + o.skip(
                    e,
                ));
            }
        }
        r
    }

    /// Removes the group with identifier `id`, with its subtree, from wherever
    /// it is in the forest; `false`, with the forest unchanged, when no group
    /// has that identifier.
    pub fn delete(forest: &mut Vec<Group>, id: u128) -> (r: bool)
        ensures
            delete_outcome(old(forest)@, final(forest)@, id, r),
    {
        let ghost f0 = forest@;
        let r = delete_at(forest, id, Ghost(0));
        proof {
            let o = outline(f0);
            if r {
                let (k, e) = choose|k: int, e: int|
                    0 <= k < o.len() && o[k].identifier == id && block_end(o, k, e) && outline_at(
                        forest@,
                        0,
                    ) == o.take(k) + o.skip(e);
                assert(outline(forest@) == o.take(k) + o.skip(e));
            }
        }
        r
    }

    /// Whether a group with identifier `id` is anywhere in the forest.
    pub fn contains(forest: &Vec<Group>, id: u128) -> (r: bool)
        ensures
            r == has_group(forest@, id),
    {
        find_at(forest, id, Ghost(0)).is_some()
    }

    /// The identifiers of every group whose name contains `text`, ignoring case,
    /// in depth-first preorder.
    pub fn find_by_name_substring(forest: &Vec<Group>, text: &str) -> (r: Vec<u128>)
        ensures
            r@ == named_ids(outline(forest@), text@),
    {
        let mut out: Vec<u128> = Vec::new();
        collect_named_at(forest, text, &mut out, Ghost(0));
        proof {
            assert(Seq::<u128>::empty() + named_ids(outline(forest@), text@) =~= named_ids(
                outline(forest@),
                text@,
            ));
        }
        out
    }

    /// Resolves a query to one group: the group whose identifier the query
    /// spells, else the first group in preorder whose name contains the query,
    /// ignoring case.
    pub fn find_best_match<'a>(forest: &'a Vec<Group>, text: &str) -> (r: Option<&'a Group>)
        ensures
            ({
                let o = outline(forest@);
                let by_id = parsed_identifier(text@) is Some && has_group(
                    forest@,
                    parsed_identifier(text@)->0,
                );
                if by_id {
                    r is Some && r->0.identifier == parsed_identifier(text@)->0 && exists|k: int, e: int|
                        first_with_id(o, parsed_identifier(text@)->0, k) && block_end(o, k, e)
                            && outline_at(seq![*r->0], o[k].depth) == o.subrange(k, e)
                } else {
                    match r {
                        Some(g) => exists|k: int, e: int|
                            first_named(o, text@, k) && block_end(o, k, e) && outline_at(
                                seq![*g],
                                o[k].depth,
                            ) == o.subrange(k, e),
                        None => forall|k: int|
                            0 <= k < o.len() ==> !folded_contains((#[trigger] o[k]).name, text@),
                    }
                }
            }),
    {
        if let Some(id) = parse_identifier(text) {
            if let Some(g) = Self::find_by_id(forest, id) {
                return Some(g);
            }
        }
        let r = find_named_at(forest, text, Ghost(0));
        proof {
            let o = outline_at(forest@, 0);
            if let Some(g) = r {
                let (k, e) = choose|k: int, e: int|
                    first_named(o, text@, k) && block_end(o, k, e) && outline_at(seq![*g], o[k].depth)
                        == o.subrange(k, e);
                assert(first_named(outline(forest@), text@, k) && block_end(outline(forest@), k, e)
                    && outline_at(seq![*g], outline(forest@)[k].depth) == outline(forest@).subrange(k, e));
            } else {
                assert forall|k: int| 0 <= k < outline(forest@).len() implies !folded_contains(
                    (#[trigger] outline(forest@)[k]).name,
                    text@,
                ) by {
                    assert(outline(forest@)[k] == o[k]);
                }
            }
        }
        r
    }
}

} // verus!
