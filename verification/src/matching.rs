use vstd::prelude::*;
use crate::chained_hash_table::{ChainedHashTable, WINDOW_SIZE};
use crate::compression_options::MAX_HASH_CHECKS;

verus! {

/// Longest match that a length/distance pair can express.
pub const MAX_MATCH: usize = 258;

/// Shortest match that a length/distance pair can express.
pub const MIN_MATCH: usize = 3;

/// Number of positions, at most `max`, on which `data` read from `a` agrees
/// with `data` read from `b`, before the first difference or the end.
pub open spec fn match_length(data: Seq<u8>, a: int, b: int, max: nat) -> nat
    decreases max,
{
    if max == 0 || a >= data.len() || b >= data.len() || data[a] != data[b] {
        0
    } else {
        1 + match_length(data, a + 1, b + 1, (max - 1) as nat)
    }
}

/// `l` is the length of the common run of `data` from `a` and from `b`,
/// stated without recursion: the run agrees, and it ends at `max`, at the
/// end of the data or at a difference.
pub open spec fn is_match_length(data: Seq<u8>, a: int, b: int, max: nat, l: nat) -> bool {
    &&& l <= max
    &&& a + l <= data.len()
    &&& b + l <= data.len()
    &&& forall|k: int| a <= k < a + l ==> #[trigger] data[k] == data[k - a + b]
    &&& (l == max || a + l == data.len() || b + l == data.len() || data[a + l] != data[b + l])
}

/// The recursive and the direct statement of a match length agree.
pub proof fn lemma_match_length(data: Seq<u8>, a: int, b: int, max: nat)
    requires
        0 <= a <= data.len(),
        0 <= b <= data.len(),
    ensures
        is_match_length(data, a, b, max, match_length(data, a, b, max)),
    decreases max,
{
    if max == 0 || a >= data.len() || b >= data.len() || data[a] != data[b] {
    } else {
        lemma_match_length(data, a + 1, b + 1, (max - 1) as nat);
        let l = match_length(data, a, b, max);
        assert forall|k: int| a <= k < a + l implies #[trigger] data[k] == data[k - a + b] by {
            if k > a {
                assert(data[k] == data[k - (a + 1) + (b + 1)]);
            }
        }
    }
}

/// Number of bytes from `current_pos` on that equal those from
/// `pos_to_check` on, at most `MAX_MATCH`.
pub fn get_match_length(data: &[u8], current_pos: usize, pos_to_check: usize) -> (l: usize)
    requires
        current_pos <= data@.len(),
        pos_to_check <= data@.len(),
    ensures
        l == match_length(data@, current_pos as int, pos_to_check as int, MAX_MATCH as nat),
        is_match_length(data@, current_pos as int, pos_to_check as int, MAX_MATCH as nat, l as nat),
{
    let n = data.len();
    let mut l: usize = 0;
    while l < MAX_MATCH && current_pos + l < n && pos_to_check + l < n && data[current_pos + l]
        == data[pos_to_check + l]
        invariant
            n == data@.len(),
            current_pos <= n,
            pos_to_check <= n,
            l <= MAX_MATCH,
            current_pos + l <= n,
            pos_to_check + l <= n,
            l + match_length(data@, current_pos + l, pos_to_check + l, (MAX_MATCH - l) as nat)
                == match_length(data@, current_pos as int, pos_to_check as int, MAX_MATCH as nat),
        decreases MAX_MATCH - l,
    {
        l = l + 1;
    }
    proof {
        lemma_match_length(data@, current_pos as int, pos_to_check as int, MAX_MATCH as nat);
    }
    l
}

/// The oldest position that a match from `position` may start at.
pub open spec fn window_limit(position: int) -> int {
    if position > WINDOW_SIZE {
        position - WINDOW_SIZE
    } else {
        0
    }
}

/// The longest match that can start at `position`.
pub open spec fn max_length_at(data: Seq<u8>, position: int) -> int {
    if data.len() - position < MAX_MATCH {
        data.len() - position
    } else {
        MAX_MATCH as int
    }
}

/// Walks the chain that `links` holds, from `current` towards older
/// positions, for at most `checks` steps, and keeps the longest match found:
/// a candidate replaces the best so far only if its match is strictly longer
/// and at least `MIN_MATCH` long, so that of equally long matches the nearest
/// stays. The walk ends where a link does not lead back, where it leaves the
/// window, or where a match of the full length `max_length` is found.
pub open spec fn chain_search(
    data: Seq<u8>,
    links: Seq<usize>,
    position: int,
    max_length: int,
    current: int,
    best: (int, int),
    checks: nat,
) -> (int, int)
    decreases checks,
{
    if checks == 0 {
        best
    } else {
        let next = links[current % (WINDOW_SIZE as int)] as int;
        if next >= current || next < window_limit(position) {
            best
        } else {
            let l = match_length(data, position, next, MAX_MATCH as nat) as int;
            if l > best.0 && l >= MIN_MATCH {
                if l == max_length {
                    (l, position - next)
                } else {
                    chain_search(
                        data,
                        links,
                        position,
                        max_length,
                        next,
                        (l, position - next),
                        (checks - 1) as nat,
                    )
                }
            } else {
                chain_search(data, links, position, max_length, next, best, (checks - 1) as nat)
            }
        }
    }
}

/// Where the best length so far is all that the data leaves room for, the
/// search changes nothing.
proof fn lemma_search_saturated(
    data: Seq<u8>,
    links: Seq<usize>,
    position: int,
    current: int,
    best: (int, int),
    checks: nat,
)
    requires
        0 <= current <= position <= data.len(),
        links.len() == WINDOW_SIZE,
        best.0 >= max_length_at(data, position),
    ensures
        chain_search(data, links, position, max_length_at(data, position), current, best, checks)
            == best,
    decreases checks,
{
    if checks > 0 {
        let next = links[current % (WINDOW_SIZE as int)] as int;
        if next >= current || next < window_limit(position) {
        } else {
            lemma_match_length(data, position, next, MAX_MATCH as nat);
            lemma_search_saturated(data, links, position, next, best, (checks - 1) as nat);
        }
    }
}

/// The `k`-th position on the chain that starts at `current`.
pub open spec fn chain_at(links: Seq<usize>, current: int, k: nat) -> int
    decreases k,
{
    if k == 0 {
        current
    } else {
        links[chain_at(links, current, (k - 1) as nat) % (WINDOW_SIZE as int)] as int
    }
}

/// The first `k` links from `current` lead back, each to an older position
/// inside the window of `position`.
pub open spec fn chain_leads_back(links: Seq<usize>, position: int, current: int, k: nat) -> bool {
    forall|j: nat|
        1 <= j <= k ==> window_limit(position) <= #[trigger] chain_at(links, current, j)
            < chain_at(links, current, (j - 1) as nat)
}

/// The chain from the first link on is the chain, one step further.
proof fn lemma_chain_shift(links: Seq<usize>, current: int, k: nat)
    ensures
        chain_at(links, chain_at(links, current, 1), k) == chain_at(links, current, k + 1),
    decreases k,
{
    reveal_with_fuel(chain_at, 2);
    if k > 0 {
        lemma_chain_shift(links, current, (k - 1) as nat);
    }
}

/// A chain that leads back never comes above its first link again.
proof fn lemma_chain_descends(links: Seq<usize>, position: int, current: int, k: nat, j: nat)
    requires
        chain_leads_back(links, position, current, k),
        1 <= j <= k,
    ensures
        chain_at(links, current, j) <= chain_at(links, current, 1),
    decreases j,
{
    if j > 1 {
        lemma_chain_descends(links, position, current, k, (j - 1) as nat);
        assert(chain_at(links, current, j) < chain_at(links, current, (j - 1) as nat));
    }
}

/// The search never gives up what it has: its result is at least as long
/// as the best so far, and where it is no longer it is the best so far.
pub proof fn lemma_search_keeps(
    data: Seq<u8>,
    links: Seq<usize>,
    position: int,
    max_length: int,
    current: int,
    best: (int, int),
    checks: nat,
)
    ensures
        chain_search(data, links, position, max_length, current, best, checks).0 >= best.0,
        chain_search(data, links, position, max_length, current, best, checks).0 == best.0
            ==> chain_search(data, links, position, max_length, current, best, checks) == best,
    decreases checks,
{
    if checks > 0 {
        let next = links[current % (WINDOW_SIZE as int)] as int;
        if next >= current || next < window_limit(position) {
        } else {
            let l = match_length(data, position, next, MAX_MATCH as nat) as int;
            if l > best.0 && l >= MIN_MATCH {
                if l != max_length {
                    lemma_search_keeps(
                        data,
                        links,
                        position,
                        max_length,
                        next,
                        (l, position - next),
                        (checks - 1) as nat,
                    );
                }
            } else {
                lemma_search_keeps(
                    data,
                    links,
                    position,
                    max_length,
                    next,
                    best,
                    (checks - 1) as nat,
                );
            }
        }
    }
}

/// The search prefers the longest match: of the positions that it visits,
/// the `j`-th included, none has a match of three bytes or more that is
/// longer than the result. Of equally long matches it keeps the nearest:
/// where the `j`-th position matches as long as the result, and longer than
/// the best before the search, the result is not farther away than it.
#[verifier::rlimit(40)]
pub proof fn lemma_search_prefers_longest(
    data: Seq<u8>,
    links: Seq<usize>,
    position: int,
    current: int,
    best: (int, int),
    checks: nat,
    j: nat,
)
    requires
        0 <= current <= position <= data.len(),
        links.len() == WINDOW_SIZE,
        1 <= j <= checks,
        chain_leads_back(links, position, current, j),
    ensures
        ({
            let r = chain_search(
                data,
                links,
                position,
                max_length_at(data, position),
                current,
                best,
                checks,
            );
            let l = match_length(data, position, chain_at(links, current, j), MAX_MATCH as nat);
            &&& l >= MIN_MATCH ==> r.0 >= l
            &&& l >= MIN_MATCH && r.0 == l && l > best.0 ==> r.1 <= position - chain_at(
                links,
                current,
                j,
            )
        }),
    decreases checks,
{
    reveal_with_fuel(chain_at, 2);
    let max_length = max_length_at(data, position);
    let next = links[current % (WINDOW_SIZE as int)] as int;
    assert(next == chain_at(links, current, 1));
    assert(window_limit(position) <= chain_at(links, current, 1) < chain_at(links, current, 0));
    let l1 = match_length(data, position, next, MAX_MATCH as nat) as int;
    let cj = chain_at(links, current, j);
    let lj = match_length(data, position, cj, MAX_MATCH as nat) as int;
    lemma_chain_descends(links, position, current, j, j);
    assert(0 <= cj <= next);
    lemma_match_length(data, position, cj, MAX_MATCH as nat);
    lemma_match_length(data, position, next, MAX_MATCH as nat);
    let step = if l1 > best.0 && l1 >= MIN_MATCH {
        (l1, position - next)
    } else {
        best
    };
    if l1 > best.0 && l1 >= MIN_MATCH && l1 == max_length {
    } else {
        let r = chain_search(data, links, position, max_length, next, step, (checks - 1) as nat);
        lemma_search_keeps(data, links, position, max_length, next, step, (checks - 1) as nat);
        if j > 1 {
            lemma_chain_shift(links, current, (j - 1) as nat);
            assert forall|i: nat| 1 <= i <= j - 1 implies window_limit(position) <= #[trigger] chain_at(
                links,
                next,
                i,
            ) < chain_at(links, next, (i - 1) as nat) by {
                lemma_chain_shift(links, current, i);
                lemma_chain_shift(links, current, (i - 1) as nat);
                assert(window_limit(position) <= chain_at(links, current, i + 1) < chain_at(
                    links,
                    current,
                    i,
                ));
            }
            lemma_search_prefers_longest(
                data,
                links,
                position,
                next,
                step,
                (checks - 1) as nat,
                (j - 1) as nat,
            );
        }
    }
}

/// The result of the search for a match at `position` that is longer than
/// `prev_length`: length and distance, or `(0, 0)` where there is none.
pub open spec fn longest_match_spec(
    data: Seq<u8>,
    links: Seq<usize>,
    position: int,
    prev_length: int,
    max_hash_checks: nat,
) -> (int, int) {
    if position == 0 || prev_length >= MAX_MATCH || position + prev_length >= data.len() {
        (0, 0)
    } else {
        let start = if prev_length < 1 {
            1
        } else {
            prev_length
        };
        let r = chain_search(
            data,
            links,
            position,
            max_length_at(data, position),
            position,
            (start, 0),
            max_hash_checks,
        );
        if r.0 > start {
            r
        } else {
            (0, 0)
        }
    }
}

/// A pair that `longest_match` may return for `position`: either no match,
/// or a length and a distance that a decoder can follow, the length being
/// the whole common run of the two positions.
pub open spec fn usable_match(data: Seq<u8>, position: int, prev_length: int, r: (int, int)) -> bool {
    if r.0 == 0 {
        r.1 == 0
    } else {
        &&& MIN_MATCH <= r.0 <= MAX_MATCH
        &&& r.0 > prev_length
        &&& 1 <= r.1 <= position
        &&& r.1 <= WINDOW_SIZE
        &&& position + r.0 <= data.len()
        &&& r.0 == match_length(data, position, position - r.1, MAX_MATCH as nat)
    }
}

/// Searches the chain of `position` for the longest match that is longer
/// than `prev_length`, visiting at most `max_hash_checks` earlier positions.
/// Returns its length and distance, or `(0, 0)`.
#[verifier::rlimit(40)]
pub fn longest_match(
    data: &[u8],
    hash_table: &ChainedHashTable,
    position: usize,
    prev_length: usize,
    max_hash_checks: u16,
) -> (r: (usize, usize))
    requires
        hash_table.wf(),
    ensures
        (r.0 as int, r.1 as int) == longest_match_spec(
            data@,
            hash_table@.links,
            position as int,
            prev_length as int,
            max_hash_checks as nat,
        ),
        usable_match(data@, position as int, prev_length as int, (r.0 as int, r.1 as int)),
{
    let n = data.len();
    if position == 0 || prev_length >= MAX_MATCH || position >= n || prev_length >= n - position {
        return (0, 0);
    }
    let limit: usize = if position > WINDOW_SIZE {
        position - WINDOW_SIZE
    } else {
        0
    };
    let start: usize = if prev_length < 1 {
        1
    } else {
        prev_length
    };
    let max_length: usize = if n - position < MAX_MATCH {
        n - position
    } else {
        MAX_MATCH
    };
    if start >= max_length {
        proof {
            hash_table.lemma_wf();
            lemma_search_saturated(
                data@,
                hash_table@.links,
                position as int,
                position as int,
                (start as int, 0),
                max_hash_checks as nat,
            );
        }
        return (0, 0);
    }
    let ghost goal = chain_search(
        data@,
        hash_table@.links,
        position as int,
        max_length as int,
        position as int,
        (start as int, 0),
        max_hash_checks as nat,
    );
    let mut current_head: usize = position;
    let mut best_length: usize = start;
    let mut best_distance: usize = 0;
    let mut checks: u16 = max_hash_checks;
    let mut done = false;
    proof {
        hash_table.lemma_wf();
    }
    while checks > 0 && !done
        invariant
            hash_table.wf(),
            hash_table@.links.len() == WINDOW_SIZE,
            n == data@.len(),
            0 < position < n,
            limit == window_limit(position as int),
            max_length == max_length_at(data@, position as int),
            1 <= start < max_length,
            current_head <= position,
            start <= best_length <= max_length,
            !done ==> best_length < max_length,
            best_distance == 0 ==> best_length == start,
            best_distance > 0 ==> {
                &&& best_distance <= position - limit
                &&& best_length >= MIN_MATCH
                &&& best_length > start
                &&& best_length == match_length(
                    data@,
                    position as int,
                    position - best_distance,
                    MAX_MATCH as nat,
                )
            },
            goal == (if done {
                (best_length as int, best_distance as int)
            } else {
                chain_search(
                    data@,
                    hash_table@.links,
                    position as int,
                    max_length as int,
                    current_head as int,
                    (best_length as int, best_distance as int),
                    checks as nat,
                )
            }),
        decreases checks as int + (if done { 0int } else { 1int }),
    {
        let prev_head = current_head;
        let next = hash_table.get_prev(current_head);
        if next >= prev_head || next < limit {
            done = true;
        } else {
            current_head = next;
            proof {
                lemma_match_length(data@, position as int, next as int, MAX_MATCH as nat);
            }
            let ghost l = match_length(data@, position as int, next as int, MAX_MATCH as nat);
            if data[position + best_length - 1] == data[next + best_length - 1] && data[position
                + best_length] == data[next + best_length] {
                let length = get_match_length(data, position, next);
                if length > best_length && length >= MIN_MATCH {
                    best_length = length;
                    best_distance = position - next;
                    if length == max_length {
                        done = true;
                    }
                }
            } else {
                assert(l <= best_length) by {
                    if l > best_length {
                        assert(data@[position + best_length - 1] == data@[position + best_length
                            - 1 - position + next]);
                        assert(data@[position + best_length] == data@[position + best_length
                            - position + next]);
                    }
                }
            }
            checks = checks - 1;
        }
    }
    if best_length > start {
        (best_length, best_distance)
    } else {
        (0, 0)
    }
}

/// The longest match of at least `MIN_MATCH` bytes at the position that was
/// inserted last into `hash_table`, with the default bound on the search.
pub fn longest_match_current(data: &[u8], hash_table: &ChainedHashTable) -> (r: (usize, usize))
    requires
        hash_table.wf(),
    ensures
        (r.0 as int, r.1 as int) == longest_match_spec(
            data@,
            hash_table@.links,
            hash_table@.heads[hash_table@.hash as int] as int,
            MIN_MATCH - 1,
            MAX_HASH_CHECKS as nat,
        ),
        usable_match(
            data@,
            hash_table@.heads[hash_table@.hash as int] as int,
            MIN_MATCH - 1,
            (r.0 as int, r.1 as int),
        ),
{
    longest_match(data, hash_table, hash_table.current_head(), MIN_MATCH - 1, MAX_HASH_CHECKS)
}

} // verus!
