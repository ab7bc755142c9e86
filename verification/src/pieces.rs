use crate::almanac::{
    in_pair, in_seed_ranges, lemma_first_cover, lemma_uncovered_stays, maps_wf, pipeline,
    ranges_fit, ranges_value, MapRange, Stage,
};
use vstd::prelude::*;

verus! {

/// `v` lies in the piece: between its first number and its second, both
/// included.
pub open spec fn in_piece(p: (usize, usize), v: int) -> bool {
    p.0 <= v <= p.1
}

/// `v` lies in one of the pieces.
#[verifier::opaque]
pub open spec fn covered(pieces: Seq<(usize, usize)>, v: int) -> bool {
    exists|i: int| 0 <= i < pieces.len() && in_piece(#[trigger] pieces[i], v)
}

/// The pair of seeds number `j`, for a `j` below `i`, declares `v`.
pub open spec fn in_pairs_below(seeds: Seq<usize>, i: int, v: int) -> bool {
    exists|j: int| j < i && #[trigger] in_pair(seeds, j, v)
}

/// `v` is in one of the pieces, and the range covers it and sends it to `w`.
pub open spec fn sent(pieces: Seq<(usize, usize)>, range: MapRange, v: int, w: int) -> bool {
    covered(pieces, v) && range.covers(v) && range.image(v) == w
}

/// One of the first `k` ranges covers `v`.
pub open spec fn caught(ranges: Seq<MapRange>, k: int, v: int) -> bool {
    exists|j: int| 0 <= j < k && (#[trigger] ranges[j]).covers(v)
}

/// `v` is in one of the pieces, and the ranges send it to `w`.
pub open spec fn moved(pieces: Seq<(usize, usize)>, ranges: Seq<MapRange>, v: int, w: int) -> bool {
    covered(pieces, v) && ranges_value(ranges, v) == w
}

/// `v` is in one of the pieces, one of the first `k` ranges covers it, and
/// these `k` ranges send it to `w`.
pub open spec fn moved_by(
    pieces: Seq<(usize, usize)>,
    ranges: Seq<MapRange>,
    k: int,
    v: int,
    w: int,
) -> bool {
    covered(pieces, v) && caught(ranges, k, v) && ranges_value(ranges.take(k), v) == w
}

/// `v` is a seed that the ranges of seeds declare, and the maps send it to
/// `w`.
pub open spec fn reaches(seeds: Seq<usize>, maps: Seq<Stage>, v: int, w: int) -> bool {
    0 <= v <= usize::MAX && in_seed_ranges(seeds, v) && pipeline(maps, v) == w
}

/// With one more piece, what is covered is what was covered and what lies in
/// the piece.
proof fn lemma_covered_push(pieces: Seq<(usize, usize)>, p: (usize, usize), v: int)
    ensures
        covered(pieces.push(p), v) <==> (covered(pieces, v) || in_piece(p, v)),
{
    reveal(covered);
    let grown = pieces.push(p);
    if covered(pieces, v) {
        let i = choose|i: int| 0 <= i < pieces.len() && in_piece(#[trigger] pieces[i], v);
        assert(in_piece(grown[i], v));
    }
    if in_piece(p, v) {
        assert(in_piece(grown[pieces.len() as int], v));
    }
    if covered(grown, v) {
        let i = choose|i: int| 0 <= i < grown.len() && in_piece(#[trigger] grown[i], v);
        if i < pieces.len() {
            assert(in_piece(pieces[i], v));
        }
    }
}

/// Nothing lies in no pieces.
proof fn lemma_covered_empty(v: int)
    ensures
        !covered(Seq::<(usize, usize)>::empty(), v),
{
    reveal(covered);
}

/// Ranges that stand behind one that covers `v` change nothing for `v`.
proof fn lemma_value_prefix(ranges: Seq<MapRange>, k: int, v: int)
    requires
        0 <= k <= ranges.len(),
        caught(ranges, k, v),
    ensures
        ranges_value(ranges.take(k), v) == ranges_value(ranges, v),
    decreases ranges.len(),
{
    let j = choose|j: int| 0 <= j < k && (#[trigger] ranges[j]).covers(v);
    assert(ranges.take(k)[0] == ranges[0]);
    if !ranges[0].covers(v) {
        let rest = ranges.drop_first();
        assert(rest[j - 1] == ranges[j]);
        assert(rest[j - 1].covers(v));
        assert(caught(rest, k - 1, v));
        lemma_value_prefix(rest, k - 1, v);
        assert(ranges.take(k).drop_first() == rest.take(k - 1));
    }
}

/// The ranges of seeds as pieces.
pub fn seed_pieces(seeds: &Vec<usize>) -> (pieces: Vec<(usize, usize)>)
    ensures
        forall|v: int|
            #[trigger] covered(pieces@, v) <==> (0 <= v <= usize::MAX && in_seed_ranges(seeds@, v)),
{
    let mut pieces: Vec<(usize, usize)> = Vec::new();
    let mut i: usize = 0;
    proof {
        assert forall|v: int| !#[trigger] covered(pieces@, v) by {
            lemma_covered_empty(v);
        }
    }
    while i < seeds.len() / 2
        invariant
            i <= seeds@.len() / 2,
            forall|v: int|
                #[trigger] covered(pieces@, v) <==> (0 <= v <= usize::MAX && in_pairs_below(
                    seeds@,
                    i as int,
                    v,
                )),
        decreases seeds@.len() / 2 - i,
    {
        let start = seeds[2 * i];
        let length = seeds[2 * i + 1];
        let ghost before = pieces@;
        if length > 0 {
            let end = if length - 1 <= usize::MAX - start {
                start + (length - 1)
            } else {
                usize::MAX
            };
            pieces.push((start, end));
        }
        proof {
            assert forall|v: int|
                #[trigger] covered(pieces@, v) <==> (0 <= v <= usize::MAX && in_pairs_below(
                    seeds@,
                    i + 1,
                    v,
                )) by {
                if length > 0 {
                    lemma_covered_push(before, pieces@[before.len() as int], v);
                }
                if in_pairs_below(seeds@, i as int, v) {
                    let j = choose|j: int| j < i && #[trigger] in_pair(seeds@, j, v);
                    assert(in_pair(seeds@, j, v));
                }
                if in_pair(seeds@, i as int, v) {
                    assert(in_pairs_below(seeds@, i + 1, v));
                }
                if in_pairs_below(seeds@, i + 1, v) {
                    let j = choose|j: int| j < i + 1 && #[trigger] in_pair(seeds@, j, v);
                    if j < i {
                        assert(in_pairs_below(seeds@, i as int, v));
                    }
                }
            }
        }
        i += 1;
    }
    proof {
        assert forall|v: int|
            #[trigger] covered(pieces@, v) <==> (0 <= v <= usize::MAX && in_seed_ranges(seeds@, v)) by {
            if in_pairs_below(seeds@, i as int, v) {
                let j = choose|j: int| j < i && #[trigger] in_pair(seeds@, j, v);
                assert(in_pair(seeds@, j, v));
            }
            if in_seed_ranges(seeds@, v) {
                let j = choose|j: int| #[trigger] in_pair(seeds@, j, v);
                assert(in_pair(seeds@, j, v));
                assert(in_pairs_below(seeds@, i as int, v));
            }
        }
    }
    pieces
}

/// Cuts the pieces at the ends of the range: what the range covers goes to
/// `out`, moved as the range says, and what it does not cover is given back.
pub fn apply_range(
    pending: &Vec<(usize, usize)>,
    range: &MapRange,
    out: &mut Vec<(usize, usize)>,
) -> (left: Vec<(usize, usize)>)
    requires
        range.fits(),
    ensures
        forall|v: int| #[trigger] covered(left@, v) <==> (covered(pending@, v) && !range.covers(v)),
        forall|w: int|
            #[trigger] covered(final(out)@, w) <==> (covered(old(out)@, w) || exists|v: int|
                #[trigger] sent(pending@, *range, v, w)),
{
    let mut left: Vec<(usize, usize)> = Vec::new();
    let ghost out0 = out@;
    let mut i: usize = 0;
    proof {
        assert(pending@.take(0) == Seq::<(usize, usize)>::empty());
        assert forall|v: int| !#[trigger] covered(left@, v) && !covered(pending@.take(0), v) by {
            lemma_covered_empty(v);
        }
    }
    while i < pending.len()
        invariant
            i <= pending@.len(),
            range.fits(),
            forall|v: int|
                #[trigger] covered(left@, v) <==> (covered(pending@.take(i as int), v) && !range.covers(v)),
            forall|w: int|
                #[trigger] covered(out@, w) <==> (covered(out0, w) || exists|v: int|
                    #[trigger] sent(pending@.take(i as int), *range, v, w)),
        decreases pending@.len() - i,
    {
        let (lo, hi) = pending[i];
        let ghost piece = (lo, hi);
        let ghost seen = pending@.take(i as int);
        let ghost next = pending@.take(i + 1);
        let ghost left0 = left@;
        let ghost out1 = out@;
        proof {
            assert(next == seen.push(piece));
        }
        if range.length == 0 {
            left.push((lo, hi));
            proof {
                assert forall|v: int|
                    #[trigger] covered(left@, v) <==> (covered(next, v) && !range.covers(v)) by {
                    lemma_covered_push(left0, piece, v);
                    lemma_covered_push(seen, piece, v);
                }
                assert forall|w: int|
                    #[trigger] covered(out@, w) <==> (covered(out0, w) || exists|v: int|
                        #[trigger] sent(next, *range, v, w)) by {
                    if exists|v: int| #[trigger] sent(seen, *range, v, w) {
                        let v = choose|v: int| #[trigger] sent(seen, *range, v, w);
                        lemma_covered_push(seen, piece, v);
                        assert(sent(next, *range, v, w));
                    }
                }
            }
        } else {
            let room = usize::MAX - range.source_start;
            let reach = if range.length - 1 < room {
                range.length - 1
            } else {
                room
            };
            let first = range.source_start;
            let last = first + reach;
            assert(forall|v: int| 0 <= v <= usize::MAX ==> (range.covers(v) <==> first <= v <= last));
            let ghost left1 = left@;
            if lo < first {
                let end = if hi < first {
                    hi
                } else {
                    first - 1
                };
                left.push((lo, end));
            }
            let ghost left2 = left@;
            if hi > last {
                let begin = if lo > last {
                    lo
                } else {
                    last + 1
                };
                left.push((begin, hi));
            }
            let a = if lo > first {
                lo
            } else {
                first
            };
            let b = if hi < last {
                hi
            } else {
                last
            };
            if a <= b {
                proof {
                    assert(range.covers(a as int));
                    assert(range.covers(b as int));
                    assert(range.image(a as int) <= usize::MAX);
                    assert(range.image(b as int) <= usize::MAX);
                }
                out.push(
                    (range.dest_start + (a - range.source_start), range.dest_start + (b
                        - range.source_start)),
                );
            }
            proof {
                assert forall|v: int|
                    #[trigger] covered(left@, v) <==> (covered(next, v) && !range.covers(v)) by {
                    lemma_covered_push(seen, piece, v);
                    if lo < first {
                        lemma_covered_push(left1, left2[left1.len() as int], v);
                    }
                    if hi > last {
                        lemma_covered_push(left2, left@[left2.len() as int], v);
                    }
                }
                assert forall|w: int|
                    #[trigger] covered(out@, w) <==> (covered(out0, w) || exists|v: int|
                        #[trigger] sent(next, *range, v, w)) by {
                    if a <= b {
                        lemma_covered_push(out1, out@[out1.len() as int], w);
                        if in_piece(out@[out1.len() as int], w) {
                            let v = w - range.dest_start + range.source_start;
                            lemma_covered_push(seen, piece, v);
                            assert(sent(next, *range, v, w));
                        }
                    }
                    if exists|v: int| #[trigger] sent(seen, *range, v, w) {
                        let v = choose|v: int| #[trigger] sent(seen, *range, v, w);
                        lemma_covered_push(seen, piece, v);
                        assert(sent(next, *range, v, w));
                    }
                    if exists|v: int| #[trigger] sent(next, *range, v, w) {
                        let v = choose|v: int| #[trigger] sent(next, *range, v, w);
                        lemma_covered_push(seen, piece, v);
                        if covered(seen, v) {
                            assert(sent(seen, *range, v, w));
                        } else {
                            assert(in_piece(piece, v));
                            assert(a <= v <= b);
                        }
                    }
                }
            }
        }
        i += 1;
    }
    proof {
        assert(pending@.take(pending@.len() as int) == pending@);
    }
    left
}

/// What the map makes of the pieces: the pieces that hold exactly the values
/// that the map sends a value of the given pieces to.
pub fn apply_stage(pieces: Vec<(usize, usize)>, stage: &Stage) -> (r: Vec<(usize, usize)>)
    requires
        stage.wf(),
    ensures
        forall|w: int|
            #[trigger] covered(r@, w) <==> exists|v: int| #[trigger] moved(pieces@, stage.map_ranges@, v, w),
{
    let ghost base = pieces@;
    let ghost ranges = stage.map_ranges@;
    let mut pending = pieces;
    let mut out: Vec<(usize, usize)> = Vec::new();
    let mut k: usize = 0;
    proof {
        assert forall|w: int| !#[trigger] covered(out@, w) by {
            lemma_covered_empty(w);
        }
    }
    while k < stage.map_ranges.len()
        invariant
            k <= ranges.len(),
            ranges == stage.map_ranges@,
            ranges_fit(ranges),
            forall|v: int| #[trigger] covered(pending@, v) <==> (covered(base, v) && !caught(ranges, k as int, v)),
            forall|w: int|
                #[trigger] covered(out@, w) <==> exists|v: int| #[trigger] moved_by(base, ranges, k as int, v, w),
        decreases ranges.len() - k,
    {
        let ghost out0 = out@;
        let ghost pending0 = pending@;
        let range = &stage.map_ranges[k];
        assert(ranges[k as int].fits());
        let left = apply_range(&pending, range, &mut out);
        proof {
            let grown = ranges.take(k + 1);
            assert(grown.take(k as int) == ranges.take(k as int));
            assert forall|v: int|
                #[trigger] covered(left@, v) <==> (covered(base, v) && !caught(ranges, k + 1, v)) by {
                if caught(ranges, k as int, v) {
                    let j = choose|j: int| 0 <= j < k && (#[trigger] ranges[j]).covers(v);
                    assert(ranges[j].covers(v));
                }
                if ranges[k as int].covers(v) {
                    assert(caught(ranges, k + 1, v));
                }
                if caught(ranges, k + 1, v) {
                    let j = choose|j: int| 0 <= j < k + 1 && (#[trigger] ranges[j]).covers(v);
                    if j < k {
                        assert(caught(ranges, k as int, v));
                    }
                }
            }
            assert forall|w: int|
                #[trigger] covered(out@, w) <==> exists|v: int|
                    #[trigger] moved_by(base, ranges, k + 1, v, w) by {
                if exists|v: int| #[trigger] moved_by(base, ranges, k as int, v, w) {
                    let v = choose|v: int| #[trigger] moved_by(base, ranges, k as int, v, w);
                    let j = choose|j: int| 0 <= j < k && (#[trigger] ranges[j]).covers(v);
                    assert(grown[j] == ranges[j]);
                    assert(caught(grown, k as int, v));
                    lemma_value_prefix(grown, k as int, v);
                    assert(caught(ranges, k + 1, v));
                    assert(moved_by(base, ranges, k + 1, v, w));
                }
                if exists|v: int| #[trigger] sent(pending0, *range, v, w) {
                    let v = choose|v: int| #[trigger] sent(pending0, *range, v, w);
                    assert(ranges[k as int].covers(v));
                    assert(caught(ranges, k + 1, v));
                    assert forall|j: int| 0 <= j < k implies !(#[trigger] grown[j]).covers(v) by {
                        assert(grown[j] == ranges[j]);
                    }
                    lemma_first_cover(grown, v, k as int);
                    assert(moved_by(base, ranges, k + 1, v, w));
                }
                if exists|v: int| #[trigger] moved_by(base, ranges, k + 1, v, w) {
                    let v = choose|v: int| #[trigger] moved_by(base, ranges, k + 1, v, w);
                    if caught(ranges, k as int, v) {
                        let j = choose|j: int| 0 <= j < k && (#[trigger] ranges[j]).covers(v);
                        assert(grown[j] == ranges[j]);
                        assert(caught(grown, k as int, v));
                        lemma_value_prefix(grown, k as int, v);
                        assert(moved_by(base, ranges, k as int, v, w));
                    } else {
                        let j = choose|j: int| 0 <= j < k + 1 && (#[trigger] ranges[j]).covers(v);
                        assert(j == k);
                        assert forall|j: int| 0 <= j < k implies !(#[trigger] grown[j]).covers(
                            v,
                        ) by {
                            assert(grown[j] == ranges[j]);
                        }
                        lemma_first_cover(grown, v, k as int);
                        assert(sent(pending0, *range, v, w));
                    }
                }
            }
        }
        pending = left;
        k += 1;
    }
    let ghost moved_out = out@;
    let mut i: usize = 0;
    proof {
        assert(pending@.take(0) == Seq::<(usize, usize)>::empty());
        assert forall|w: int| !#[trigger] covered(pending@.take(0), w) by {
            lemma_covered_empty(w);
        }
    }
    while i < pending.len()
        invariant
            i <= pending@.len(),
            forall|w: int|
                #[trigger] covered(out@, w) <==> (covered(moved_out, w) || covered(pending@.take(i as int), w)),
        decreases pending@.len() - i,
    {
        let ghost out0 = out@;
        proof {
            assert(pending@.take(i + 1) == pending@.take(i as int).push(pending@[i as int]));
            assert forall|w: int|
                #[trigger] covered(out0.push(pending@[i as int]), w) <==> (covered(moved_out, w) || covered(
                    pending@.take(i + 1),
                    w,
                )) by {
                lemma_covered_push(out0, pending@[i as int], w);
                lemma_covered_push(pending@.take(i as int), pending@[i as int], w);
            }
        }
        out.push(pending[i]);
        i += 1;
    }
    proof {
        assert(pending@.take(pending@.len() as int) == pending@);
        assert(ranges.take(ranges.len() as int) == ranges);
        let n = ranges.len() as int;
        assert forall|w: int| #[trigger] covered(out@, w) <==> exists|v: int| #[trigger] moved(base, ranges, v, w) by {
            if exists|v: int| #[trigger] moved_by(base, ranges, n, v, w) {
                let v = choose|v: int| #[trigger] moved_by(base, ranges, n, v, w);
                assert(moved(base, ranges, v, w));
            }
            if covered(pending@, w) {
                assert forall|j: int| 0 <= j < n implies !(#[trigger] ranges[j]).covers(w) by {
                    if ranges[j].covers(w) {
                        assert(caught(ranges, n, w));
                    }
                }
                lemma_uncovered_stays(ranges, w);
                assert(moved(base, ranges, w, w));
            }
            if exists|v: int| #[trigger] moved(base, ranges, v, w) {
                let v = choose|v: int| #[trigger] moved(base, ranges, v, w);
                if caught(ranges, n, v) {
                    assert(moved_by(base, ranges, n, v, w));
                } else {
                    assert forall|j: int| 0 <= j < n implies !(#[trigger] ranges[j]).covers(v) by {
                        if ranges[j].covers(v) {
                            assert(caught(ranges, n, v));
                        }
                    }
                    lemma_uncovered_stays(ranges, v);
                }
            }
        }
    }
    out
}

/// Where the maps send the declared seeds: the pieces that hold exactly the
/// values that the maps, one after another, send a declared seed to.
pub fn locations(seeds: &Vec<usize>, maps: &[Stage]) -> (r: Vec<(usize, usize)>)
    requires
        maps_wf(maps@),
    ensures
        forall|w: int| #[trigger] covered(r@, w) <==> exists|v: int| #[trigger] reaches(seeds@, maps@, v, w),
{
    let mut pieces = seed_pieces(seeds);
    let mut i: usize = 0;
    proof {
        assert(maps@.take(0) == Seq::<Stage>::empty());
        assert forall|w: int|
            #[trigger] covered(pieces@, w) <==> exists|v: int|
                #[trigger] reaches(seeds@, maps@.take(0), v, w) by {
            if covered(pieces@, w) {
                assert(reaches(seeds@, maps@.take(0), w, w));
            }
        }
    }
    while i < maps.len()
        invariant
            i <= maps@.len(),
            maps_wf(maps@),
            forall|w: int|
                #[trigger] covered(pieces@, w) <==> exists|v: int|
                    #[trigger] reaches(seeds@, maps@.take(i as int), v, w),
        decreases maps@.len() - i,
    {
        let ghost before = pieces@;
        let ghost ranges = maps@[i as int].map_ranges@;
        let ghost done = maps@.take(i as int);
        let ghost grown = maps@.take(i + 1);
        pieces = apply_stage(pieces, &maps[i]);
        proof {
            assert(grown.drop_last() == done);
            assert(grown.last() == maps@[i as int]);
            assert forall|w: int|
                #[trigger] covered(pieces@, w) <==> exists|v: int| #[trigger] reaches(seeds@, grown, v, w) by {
                if exists|u: int| #[trigger] moved(before, ranges, u, w) {
                    let u = choose|u: int| #[trigger] moved(before, ranges, u, w);
                    let v = choose|v: int| #[trigger] reaches(seeds@, done, v, u);
                    assert(reaches(seeds@, grown, v, w));
                }
                if exists|v: int| #[trigger] reaches(seeds@, grown, v, w) {
                    let v = choose|v: int| #[trigger] reaches(seeds@, grown, v, w);
                    let u = pipeline(done, v);
                    assert(reaches(seeds@, done, v, u));
                    assert(moved(before, ranges, u, w));
                }
            }
        }
        i += 1;
    }
    proof {
        assert(maps@.take(maps@.len() as int) == maps@);
    }
    pieces
}

/// The lowest value that lies in one of the pieces, or `usize::MAX` if no
/// value lies in any.
pub fn lowest(pieces: &Vec<(usize, usize)>) -> (r: usize)
    ensures
        forall|v: int| #[trigger] covered(pieces@, v) ==> r <= v,
        covered(pieces@, r as int) || (r == usize::MAX && forall|v: int| !#[trigger] covered(pieces@, v)),
{
    let mut best = usize::MAX;
    let ghost mut found = false;
    let mut i: usize = 0;
    proof {
        assert(pieces@.take(0) == Seq::<(usize, usize)>::empty());
        assert forall|v: int| !#[trigger] covered(pieces@.take(0), v) by {
            lemma_covered_empty(v);
        }
    }
    while i < pieces.len()
        invariant
            i <= pieces@.len(),
            forall|v: int| #[trigger] covered(pieces@.take(i as int), v) ==> best <= v,
            found ==> covered(pieces@.take(i as int), best as int),
            !found ==> best == usize::MAX && forall|v: int| !#[trigger] covered(pieces@.take(i as int), v),
        decreases pieces@.len() - i,
    {
        let (lo, hi) = pieces[i];
        let ghost seen = pieces@.take(i as int);
        proof {
            assert(pieces@.take(i + 1) == seen.push((lo, hi)));
            assert forall|v: int|
                #[trigger] covered(pieces@.take(i + 1), v) <==> (covered(seen, v) || in_piece((lo, hi), v)) by {
                lemma_covered_push(seen, (lo, hi), v);
            }
        }
        let ghost old_best = best;
        if lo <= hi {
            if lo <= best {
                best = lo;
            }
            proof {
                assert(in_piece((lo, hi), lo as int));
                found = true;
            }
        }
        proof {
            assert(covered(seen, old_best as int) ==> covered(pieces@.take(i + 1), old_best as int));
            assert(in_piece((lo, hi), lo as int) ==> covered(pieces@.take(i + 1), lo as int));
        }
        i += 1;
    }
    proof {
        assert(pieces@.take(pieces@.len() as int) == pieces@);
    }
    best
}

} // verus!
