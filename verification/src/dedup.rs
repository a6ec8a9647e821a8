//! Grouping carved candidates by content hash, and resolving candidates
//! whose byte ranges overlap.

use vstd::prelude::*;
use crate::carve::{carved_views, lemma_views_drop_first, CarvedFile, CarvedView};
use crate::digest::{hex_lower, sha256, sha256_hex};
use crate::text::str_eq;
use crate::verify::candidate_bytes;

verus! {

/// Candidates sharing one content hash.
pub struct DedupGroup {
    pub sha256: String,
    pub candidate_indices: Vec<usize>,
    pub is_duplicate_set: bool,
}

/// The content hash of a candidate: lower-case hex SHA-256 of its bytes
/// (clipped at the end of the buffer).
pub open spec fn file_hash(buf: Seq<u8>, f: CarvedView) -> Seq<char> {
    hex_lower(sha256(candidate_bytes(buf, f.0, f.1)))
}

/// The distinct hashes, in order of first appearance.
pub open spec fn distinct_hashes(hs: Seq<Seq<char>>) -> Seq<Seq<char>>
    decreases hs.len(),
{
    if hs.len() == 0 {
        Seq::empty()
    } else {
        let d = distinct_hashes(hs.drop_last());
        if d.contains(hs.last()) {
            d
        } else {
            d.push(hs.last())
        }
    }
}

/// The positions holding hash `h`, in increasing order.
pub open spec fn indices_of(hs: Seq<Seq<char>>, h: Seq<char>) -> Seq<usize>
    decreases hs.len(),
{
    if hs.len() == 0 {
        Seq::empty()
    } else {
        let r = indices_of(hs.drop_last(), h);
        if hs.last() == h {
            r.push((hs.len() - 1) as usize)
        } else {
            r
        }
    }
}

/// The hashes of the candidates.
pub open spec fn hashes_of(buf: Seq<u8>, files: Seq<CarvedView>) -> Seq<Seq<char>> {
    files.map_values(|f: CarvedView| file_hash(buf, f))
}

proof fn lemma_distinct_contains(hs: Seq<Seq<char>>, h: Seq<char>)
    ensures
        distinct_hashes(hs).contains(h) <==> hs.contains(h),
        !hs.contains(h) ==> indices_of(hs, h).len() == 0,
    decreases hs.len(),
{
    if hs.len() > 0 {
        let t = hs.drop_last();
        let d = distinct_hashes(t);
        let x = hs.last();
        lemma_distinct_contains(t, h);
        assert(hs[hs.len() - 1] == x);
        assert(hs.contains(h) <==> (t.contains(h) || x == h)) by {
            if t.contains(h) {
                let j = choose|j: int| 0 <= j < t.len() && t[j] == h;
                assert(hs[j] == h);
            }
            if hs.contains(h) && x != h {
                let j = choose|j: int| 0 <= j < hs.len() && hs[j] == h;
                assert(t[j] == h);
            }
        }
        assert(d.push(x).contains(h) <==> (d.contains(h) || x == h)) by {
            if d.contains(h) {
                let j = choose|j: int| 0 <= j < d.len() && d[j] == h;
                assert(d.push(x)[j] == h);
            }
            if x == h {
                assert(d.push(x)[d.len() as int] == h);
            }
            if d.push(x).contains(h) && x != h {
                let j = choose|j: int| 0 <= j < d.push(x).len() && d.push(x)[j] == h;
                assert(d[j] == h);
            }
        }
    }
}

proof fn lemma_distinct_unique(hs: Seq<Seq<char>>)
    ensures
        forall|a: int, b: int| 0 <= a < b < distinct_hashes(hs).len() ==> distinct_hashes(hs)[a] != distinct_hashes(hs)[b],
    decreases hs.len(),
{
    if hs.len() > 0 {
        lemma_distinct_unique(hs.drop_last());
        let d = distinct_hashes(hs.drop_last());
        if !d.contains(hs.last()) {
            assert forall|a: int, b: int| 0 <= a < b < d.push(hs.last()).len() implies d.push(hs.last())[a] != d.push(hs.last())[b] by {
                if b == d.len() {
                    assert(d[a] != hs.last());
                }
            }
        }
    }
}

/// The groups are the distinct hashes in order of first appearance, each
/// with every candidate index carrying it, in increasing order, and marked
/// as a duplicate set when it has more than one.
pub open spec fn groups_ok(r: Seq<DedupGroup>, hs: Seq<Seq<char>>) -> bool {
    &&& r.len() == distinct_hashes(hs).len()
    &&& forall|g: int| 0 <= g < r.len() ==> {
        &&& (#[trigger] r[g]).sha256@ == distinct_hashes(hs)[g]
        &&& r[g].candidate_indices@ == indices_of(hs, distinct_hashes(hs)[g])
        &&& r[g].is_duplicate_set == (r[g].candidate_indices@.len() > 1)
    }
}

/// Hashes every candidate's bytes and groups candidates with equal hashes.
pub fn hash_and_group(buf: &[u8], files: &[CarvedFile]) -> (r: Vec<DedupGroup>)
    requires
        forall|i: int| 0 <= i < files@.len() ==> (#[trigger] files@[i]).offset <= buf@.len()
            && files@[i].offset + files@[i].size <= usize::MAX,
    ensures
        groups_ok(r@, hashes_of(buf@, carved_views(files@))),
{
    let ghost hs = hashes_of(buf@, carved_views(files@));
    let mut groups: Vec<DedupGroup> = Vec::new();
    let mut i: usize = 0;
    while i < files.len()
        invariant
            i <= files@.len(),
            hs == hashes_of(buf@, carved_views(files@)),
            forall|j: int| 0 <= j < files@.len() ==> (#[trigger] files@[j]).offset <= buf@.len()
                && files@[j].offset + files@[j].size <= usize::MAX,
            groups@.len() == distinct_hashes(hs.subrange(0, i as int)).len(),
            forall|g: int| 0 <= g < groups@.len() ==> {
                &&& (#[trigger] groups@[g]).sha256@ == distinct_hashes(hs.subrange(0, i as int))[g]
                &&& groups@[g].candidate_indices@ == indices_of(hs.subrange(0, i as int), groups@[g].sha256@)
            },
        decreases files@.len() - i,
    {
        let f = &files[i];
        let end = if f.offset + f.size < buf.len() { f.offset + f.size } else { buf.len() };
        let h = sha256_hex(&buf[f.offset..end]);
        let ghost pre = hs.subrange(0, i as int);
        let ghost nxt = hs.subrange(0, i + 1);
        proof {
            assert(carved_views(files@)[i as int] == files@[i as int]@);
            assert(h@ == hs[i as int]);
            assert(nxt.drop_last() =~= pre);
            assert(nxt.last() == h@);
            lemma_distinct_unique(pre);
        }
        let mut g: usize = 0;
        let mut found = false;
        while g < groups.len()
            invariant_except_break
                !found,
            invariant
                g <= groups@.len(),
                forall|x: int| 0 <= x < g ==> (#[trigger] groups@[x]).sha256@ != h@,
            ensures
                found ==> g < groups@.len() && groups@[g as int].sha256@ == h@,
                !found ==> g == groups@.len(),
            decreases groups@.len() - g,
        {
            if str_eq(groups[g].sha256.as_str(), h.as_str()) {
                found = true;
                break;
            }
            g = g + 1;
        }
        let ghost gs_before = groups@;
        if found {
            let mut grp = groups.remove(g);
            let ghost idx_before = grp.candidate_indices@;
            grp.candidate_indices.push(i);
            grp.is_duplicate_set = grp.candidate_indices.len() > 1;
            groups.insert(g, grp);
            proof {
                assert(distinct_hashes(pre).contains(h@)) by {
                    assert(distinct_hashes(pre)[g as int] == h@);
                }
                assert(distinct_hashes(nxt) == distinct_hashes(pre));
                assert forall|x: int| 0 <= x < groups@.len() implies {
                    &&& (#[trigger] groups@[x]).sha256@ == distinct_hashes(nxt)[x]
                    &&& groups@[x].candidate_indices@ == indices_of(nxt, groups@[x].sha256@)
                } by {
                    if x == g {
                        assert(indices_of(nxt, h@) == indices_of(pre, h@).push(i));
                    } else {
                        assert(groups@[x] == gs_before[x]);
                        assert(gs_before[x].sha256@ != h@) by {
                            assert(distinct_hashes(pre)[x] != distinct_hashes(pre)[g as int]);
                        }
                    }
                }
            }
        } else {
            let mut idx: Vec<usize> = Vec::new();
            idx.push(i);
            groups.push(DedupGroup { sha256: h, candidate_indices: idx, is_duplicate_set: false });
            proof {
                assert(!distinct_hashes(pre).contains(hs[i as int])) by {
                    if distinct_hashes(pre).contains(hs[i as int]) {
                        let x = choose|x: int| 0 <= x < distinct_hashes(pre).len() && distinct_hashes(pre)[x] == hs[i as int];
                        assert(gs_before[x].sha256@ == hs[i as int]);
                    }
                }
                lemma_distinct_contains(pre, hs[i as int]);
                assert(distinct_hashes(nxt) == distinct_hashes(pre).push(hs[i as int]));
                assert forall|x: int| 0 <= x < groups@.len() implies {
                    &&& (#[trigger] groups@[x]).sha256@ == distinct_hashes(nxt)[x]
                    &&& groups@[x].candidate_indices@ == indices_of(nxt, groups@[x].sha256@)
                } by {
                    if x < gs_before.len() {
                        assert(groups@[x] == gs_before[x]);
                        assert(gs_before[x].sha256@ != hs[i as int]);
                    } else {
                        assert(indices_of(nxt, hs[i as int]) =~= seq![i]);
                    }
                }
            }
        }
        i = i + 1;
    }
    proof {
        assert(hs.subrange(0, i as int) =~= hs);
    }
    let ghost before_flags = groups@;
    let mut out: Vec<DedupGroup> = Vec::new();
    while groups.len() > 0
        invariant
            out@.len() + groups@.len() == before_flags.len(),
            groups@ == before_flags.subrange(out@.len() as int, before_flags.len() as int),
            forall|g: int| 0 <= g < out@.len() ==> {
                &&& (#[trigger] out@[g]).sha256@ == before_flags[g].sha256@
                &&& out@[g].candidate_indices@ == before_flags[g].candidate_indices@
                &&& out@[g].is_duplicate_set == (out@[g].candidate_indices@.len() > 1)
            },
        decreases groups@.len(),
    {
        let ghost k = out@.len();
        let mut grp = groups.remove(0);
        assert(grp == before_flags[k as int]);
        grp.is_duplicate_set = grp.candidate_indices.len() > 1;
        out.push(grp);
        assert(groups@ =~= before_flags.subrange(out@.len() as int, before_flags.len() as int));
    }
    out
}


/// The fraction of its expected bytes a candidate is taken to hold: all of
/// them when complete; otherwise its size over its size cap, at most its
/// coverage cap (the cap alone when the size cap is zero).
pub open spec fn coverage_frac(c: CarvedView) -> (int, int) {
    if c.4 {
        (1, 1)
    } else if c.5 == 0 || c.1 * 100 >= c.6 * c.5 {
        (c.6, 100)
    } else {
        (c.1, c.5)
    }
}

/// The evidence score of a candidate, `100·complete + 10 + 5·coverage`
/// (a carved candidate's signature match is full), compared exactly:
/// a complete candidate outscores an incomplete one, two complete ones tie,
/// and two incomplete ones compare by coverage.
pub open spec fn score_gt(a: CarvedView, b: CarvedView) -> bool {
    if a.4 != b.4 {
        a.4
    } else if a.4 {
        false
    } else {
        coverage_frac(a).0 * coverage_frac(b).1 > coverage_frac(b).0 * coverage_frac(a).1
    }
}

pub open spec fn score_eq(a: CarvedView, b: CarvedView) -> bool {
    a.4 == b.4 && (a.4 || coverage_frac(a).0 * coverage_frac(b).1 == coverage_frac(b).0 * coverage_frac(a).1)
}

/// Sort key: by offset, then larger first.
pub open spec fn key_lt(x: CarvedView, y: CarvedView) -> bool {
    x.0 < y.0 || (x.0 == y.0 && x.1 > y.1)
}

pub open spec fn key_pos(s: Seq<CarvedView>, x: CarvedView, j: int) -> int
    decreases j,
{
    if j <= 0 {
        0
    } else if key_lt(x, s[j - 1]) {
        key_pos(s, x, j - 1)
    } else {
        j
    }
}

/// Stable sort by offset, larger candidates first at equal offsets.
pub open spec fn sort_by_key(s: Seq<CarvedView>) -> Seq<CarvedView>
    decreases s.len(),
{
    if s.len() == 0 {
        Seq::empty()
    } else {
        let r = sort_by_key(s.drop_last());
        r.insert(key_pos(r, s.last(), r.len() as int), s.last())
    }
}

/// One pass over sorted candidates: a candidate overlapping the last kept
/// one replaces it when it scores higher, or scores the same and is larger;
/// otherwise it is dropped. A candidate that does not overlap is kept.
pub open spec fn sweep(s: Seq<CarvedView>) -> Seq<CarvedView>
    decreases s.len(),
{
    if s.len() == 0 {
        Seq::empty()
    } else {
        let r = sweep(s.drop_last());
        let c = s.last();
        if r.len() > 0 && c.0 < r.last().0 + r.last().1 {
            if score_gt(c, r.last()) || (score_eq(c, r.last()) && c.1 > r.last().1) {
                r.drop_last().push(c)
            } else {
                r
            }
        } else {
            r.push(c)
        }
    }
}

/// Consecutive candidates do not overlap.
pub open spec fn non_overlapping(s: Seq<CarvedView>) -> bool {
    forall|i: int| 0 < i < s.len() ==> (#[trigger] s[i - 1]).0 + s[i - 1].1 <= s[i].0
}

pub open spec fn offsets_sorted(s: Seq<CarvedView>) -> bool {
    forall|i: int, j: int| 0 <= i < j < s.len() ==> (#[trigger] s[i]).0 <= (#[trigger] s[j]).0
}

proof fn lemma_key_pos(s: Seq<CarvedView>, x: CarvedView, j: int)
    requires
        offsets_sorted(s),
        0 <= j <= s.len(),
        forall|i: int| j <= i < s.len() ==> key_lt(x, #[trigger] s[i]),
    ensures
        0 <= key_pos(s, x, j) <= j,
        forall|i: int| key_pos(s, x, j) <= i < s.len() ==> key_lt(x, #[trigger] s[i]),
        forall|i: int| 0 <= i < key_pos(s, x, j) ==> (#[trigger] s[i]).0 <= x.0,
    decreases j,
{
    if j > 0 && key_lt(x, s[j - 1]) {
        lemma_key_pos(s, x, j - 1);
    } else if j > 0 {
        assert forall|i: int| 0 <= i < j implies (#[trigger] s[i]).0 <= x.0 by {
            if i < j - 1 {
                assert(s[i].0 <= s[j - 1].0);
            }
        }
    }
}

/// The key sort keeps the elements and orders offsets.
pub proof fn lemma_sort_by_key(s: Seq<CarvedView>)
    ensures
        sort_by_key(s).len() == s.len(),
        offsets_sorted(sort_by_key(s)),
        forall|i: int| 0 <= i < s.len() ==> exists|k: int| 0 <= k < s.len() && #[trigger] sort_by_key(s)[i] == #[trigger] s[k],
    decreases s.len(),
{
    if s.len() > 0 {
        let t = s.drop_last();
        lemma_sort_by_key(t);
        let r = sort_by_key(t);
        let x = s.last();
        lemma_key_pos(r, x, r.len() as int);
        let p = key_pos(r, x, r.len() as int);
        let q = r.insert(p, x);
        assert forall|i: int, j: int| 0 <= i < j < q.len() implies (#[trigger] q[i]).0 <= (#[trigger] q[j]).0 by {
            if j < p {
                assert(q[i] == r[i] && q[j] == r[j]);
            } else if j == p {
                assert(q[j] == x && q[i] == r[i]);
            } else if i < p {
                assert(q[i] == r[i] && q[j] == r[j - 1]);
            } else if i == p {
                assert(q[i] == x && q[j] == r[j - 1]);
                assert(key_lt(x, r[j - 1]));
            } else {
                assert(q[i] == r[i - 1] && q[j] == r[j - 1]);
            }
        }
        assert forall|i: int| 0 <= i < s.len() implies exists|k: int| 0 <= k < s.len() && #[trigger] q[i] == #[trigger] s[k] by {
            if i == p {
                assert(q[i] == s[s.len() - 1]);
            } else {
                let ri = if i < p { i } else { i - 1 };
                assert(q[i] == r[ri]);
                let k = choose|k: int| 0 <= k < t.len() && #[trigger] r[ri] == #[trigger] t[k];
                assert(t[k] == s[k]);
            }
        }
    }
}

/// On offset-sorted input, the sweep keeps candidates of the input and
/// consecutive kept candidates do not overlap.
pub proof fn lemma_sweep(s: Seq<CarvedView>)
    requires
        offsets_sorted(s),
        forall|i: int| 0 <= i < s.len() ==> (#[trigger] s[i]).1 >= 0,
    ensures
        non_overlapping(sweep(s)),
        forall|i: int| 0 <= i < sweep(s).len() ==> exists|k: int| 0 <= k < s.len() && #[trigger] sweep(s)[i] == #[trigger] s[k],
    decreases s.len(),
{
    if s.len() > 0 {
        let t = s.drop_last();
        assert(offsets_sorted(t));
        lemma_sweep(t);
        let r = sweep(t);
        let c = s.last();
        let w = sweep(s);
        assert forall|i: int| 0 <= i < r.len() implies (#[trigger] r[i]).0 <= c.0 by {
            let k = choose|k: int| 0 <= k < t.len() && #[trigger] r[i] == #[trigger] t[k];
            assert(t[k] == s[k]);
            assert(s[k].0 <= s[s.len() - 1].0);
        }
        assert forall|i: int| 0 <= i < w.len() implies exists|k: int| 0 <= k < s.len() && #[trigger] w[i] == #[trigger] s[k] by {
            if i < r.len() && (w.len() == r.len() + 1 || i < r.len() - 1 || w == r) {
                assert(w[i] == r[i]);
                let k = choose|k: int| 0 <= k < t.len() && #[trigger] r[i] == #[trigger] t[k];
                assert(t[k] == s[k]);
            } else {
                assert(w[i] == s[s.len() - 1]);
            }
        }
        assert forall|i: int| 0 < i < w.len() implies (#[trigger] w[i - 1]).0 + w[i - 1].1 <= w[i].0 by {
            if w.len() == r.len() + 1 && i == r.len() {
                assert(w[i - 1] == r[r.len() - 1]);
                assert(w[i] == c);
            } else if w.len() == r.len() && w != r && i == r.len() - 1 {
                assert(w[i] == c);
                assert(w[i - 1] == r[i - 1]);
                assert(r[i - 1].0 + r[i - 1].1 <= r[i].0);
                assert(r[i].0 <= c.0);
            } else {
                assert(w[i] == r[i] && w[i - 1] == r[i - 1]);
            }
        }
    }
}

/// Resolves candidates whose byte ranges overlap.
pub struct CandidateResolver {}

proof fn lemma_mul_fits(a: int, b: int)
    by (nonlinear_arith)
    requires
        0 <= a <= u64::MAX,
        0 <= b <= u64::MAX,
    ensures
        0 <= a * b <= u128::MAX,
{
}

fn coverage_exec(c: &CarvedFile) -> (r: (u64, u64))
    ensures
        r.0 == coverage_frac(c@).0,
        r.1 == coverage_frac(c@).1,
{
    proof {
        lemma_mul_fits(c.coverage_cap_percent as int, c.max_size as int);
    }
    if c.complete {
        (1, 1)
    } else if c.max_size == 0 || (c.size as u128) * 100 >= (c.coverage_cap_percent as u128) * (c.max_size as u128) {
        (c.coverage_cap_percent as u64, 100)
    } else {
        (c.size as u64, c.max_size as u64)
    }
}

fn replaces(c: &CarvedFile, last: &CarvedFile) -> (r: bool)
    ensures
        r == (score_gt(c@, last@) || (score_eq(c@, last@) && c@.1 > last@.1)),
{
    let (an, ad) = coverage_exec(c);
    let (bn, bd) = coverage_exec(last);
    proof {
        lemma_mul_fits(an as int, bd as int);
        lemma_mul_fits(bn as int, ad as int);
    }
    let lhs = (an as u128) * (bd as u128);
    let rhs = (bn as u128) * (ad as u128);
    proof {
        assert(lhs == an * bd) by (nonlinear_arith)
            requires lhs == (an as u128) * (bd as u128), an <= u64::MAX, bd <= u64::MAX;
        assert(rhs == bn * ad) by (nonlinear_arith)
            requires rhs == (bn as u128) * (ad as u128), bn <= u64::MAX, ad <= u64::MAX;
    }
    let gt = if c.complete != last.complete { c.complete } else if c.complete { false } else { lhs > rhs };
    let eq = c.complete == last.complete && (c.complete || lhs == rhs);
    gt || (eq && c.size > last.size)
}

fn sort_candidates(v: Vec<CarvedFile>) -> (r: Vec<CarvedFile>)
    ensures
        carved_views(r@) == sort_by_key(carved_views(v@)),
{
    let ghost orig = carved_views(v@);
    let mut rest = v;
    let mut r: Vec<CarvedFile> = Vec::new();
    let ghost mut k: int = 0;
    while rest.len() > 0
        invariant
            0 <= k <= orig.len(),
            carved_views(rest@) == orig.subrange(k, orig.len() as int),
            carved_views(r@) == sort_by_key(orig.subrange(0, k)),
        decreases rest@.len(),
    {
        let ghost prev = rest@;
        let x = rest.remove(0);
        proof {
            lemma_views_drop_first(prev, rest@, orig, k);
            let s1 = orig.subrange(0, k + 1);
            assert(s1.drop_last() =~= orig.subrange(0, k));
            assert(s1.last() == x@);
        }
        let mut j: usize = r.len();
        while j > 0 && (x.offset < r[j - 1].offset || (x.offset == r[j - 1].offset && x.size > r[j - 1].size))
            invariant
                j <= r@.len(),
                key_pos(carved_views(r@), x@, r@.len() as int) == key_pos(carved_views(r@), x@, j as int),
            decreases j,
        {
            assert(carved_views(r@)[j - 1] == r@[j - 1]@);
            j = j - 1;
        }
        proof {
            if j > 0 {
                assert(carved_views(r@)[j - 1] == r@[j - 1]@);
            }
        }
        let ghost before = r@;
        r.insert(j, x);
        proof {
            assert(carved_views(r@) =~= carved_views(before).insert(j as int, x@));
            k = k + 1;
        }
    }
    proof {
        assert(orig.subrange(0, k) =~= orig);
    }
    r
}

impl CandidateResolver {
    /// A resolver.
    pub fn new() -> (r: Self) {
        CandidateResolver {}
    }

    /// Sorts the candidates by offset (larger first at equal offsets) and
    /// keeps, among overlapping ones, the better-scoring (see `sweep`).
    pub fn resolve(&self, candidates: &[CarvedFile]) -> (r: Vec<CarvedFile>)
        requires
            forall|i: int| 0 <= i < candidates@.len() ==> (#[trigger] candidates@[i]).offset + candidates@[i].size <= usize::MAX,
        ensures
            carved_views(r@) == sweep(sort_by_key(carved_views(candidates@))),
    {
        let mut copies: Vec<CarvedFile> = Vec::new();
        let mut i: usize = 0;
        while i < candidates.len()
            invariant
                i <= candidates@.len(),
                carved_views(copies@) == carved_views(candidates@).subrange(0, i as int),
            decreases candidates@.len() - i,
        {
            let ghost before = copies@;
            copies.push(candidates[i].copy());
            proof {
                assert(carved_views(copies@) =~= carved_views(before).push(candidates@[i as int]@));
                assert(carved_views(candidates@).subrange(0, i + 1) =~= carved_views(candidates@).subrange(0, i as int).push(candidates@[i as int]@));
            }
            i = i + 1;
        }
        proof {
            assert(carved_views(candidates@).subrange(0, i as int) =~= carved_views(candidates@));
        }
        let sorted = sort_candidates(copies);
        let ghost srt = carved_views(sorted@);
        proof {
            lemma_sort_by_key(carved_views(candidates@));
            assert forall|j: int| 0 <= j < srt.len() implies (#[trigger] srt[j]).0 + srt[j].1 <= usize::MAX by {
                let k = choose|k: int| 0 <= k < carved_views(candidates@).len() && #[trigger] srt[j] == #[trigger] carved_views(candidates@)[k];
                assert(carved_views(candidates@)[k] == candidates@[k]@);
            }
        }
        let mut rest = sorted;
        let mut resolved: Vec<CarvedFile> = Vec::new();
        let ghost mut k: int = 0;
        while rest.len() > 0
            invariant
                0 <= k <= srt.len(),
                carved_views(rest@) == srt.subrange(k, srt.len() as int),
                carved_views(resolved@) == sweep(srt.subrange(0, k)),
                forall|j: int| 0 <= j < srt.len() ==> (#[trigger] srt[j]).0 + srt[j].1 <= usize::MAX,
                forall|j: int| 0 <= j < resolved@.len() ==> (#[trigger] resolved@[j]).offset + resolved@[j].size <= usize::MAX,
            decreases rest@.len(),
        {
            let ghost prev = rest@;
            let cand = rest.remove(0);
            proof {
                lemma_views_drop_first(prev, rest@, srt, k);
                let s1 = srt.subrange(0, k + 1);
                assert(s1.drop_last() =~= srt.subrange(0, k));
                assert(s1.last() == cand@);
            }
            let n = resolved.len();
            let ghost before = resolved@;
            if n > 0 && cand.offset < resolved[n - 1].offset + resolved[n - 1].size {
                proof {
                    assert(carved_views(before).last() == before[n - 1]@);
                }
                if replaces(&cand, &resolved[n - 1]) {
                    resolved.set(n - 1, cand);
                    proof {
                        assert(carved_views(resolved@) =~= carved_views(before).drop_last().push(srt[k]));
                    }
                }
            } else {
                resolved.push(cand);
                proof {
                    if n > 0 {
                        assert(carved_views(before).last() == before[n - 1]@);
                    }
                    assert(carved_views(resolved@) =~= carved_views(before).push(srt[k]));
                }
            }
            proof {
                k = k + 1;
            }
        }
        proof {
            assert(srt.subrange(0, k) =~= srt);
        }
        resolved
    }
}


/// Resolution leaves no two consecutive candidates overlapping: each ends
/// at or before the next one starts, and the candidates come sorted by
/// offset.
pub proof fn law_resolved_candidates_disjoint(cands: Seq<CarvedView>)
    requires
        forall|i: int| 0 <= i < cands.len() ==> (#[trigger] cands[i]).1 >= 0,
    ensures
        non_overlapping(sweep(sort_by_key(cands))),
{
    lemma_sort_by_key(cands);
    let s = sort_by_key(cands);
    assert forall|i: int| 0 <= i < s.len() implies (#[trigger] s[i]).1 >= 0 by {
        let k = choose|k: int| 0 <= k < cands.len() && #[trigger] s[i] == #[trigger] cands[k];
    }
    lemma_sweep(s);
}

} // verus!
