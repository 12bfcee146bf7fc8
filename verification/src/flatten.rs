//! Row-major flattening of the letter grid, with runs of one letter capped
//! at a configured maximum while the true run length keeps being tracked.

use vstd::prelude::*;

verus! {

/// Row-major concatenation of the grid's rows.
pub open spec fn concat_rows(g: Seq<Seq<char>>) -> Seq<char>
    decreases g.len(),
{
    if g.len() == 0 {
        Seq::empty()
    } else {
        concat_rows(g.drop_last()) + g.last()
    }
}

/// The capped output for the rest of the scan: `cur` is the letter of the run
/// in progress and `cnt` its true (uncapped) length so far. A letter equal to
/// `cur` extends the run and is kept only while the true length stays within
/// `cap`; a different letter starts a new run and is always kept.
pub open spec fn cap_runs(s: Seq<char>, cur: char, cnt: nat, cap: nat) -> Seq<char>
    decreases s.len(),
{
    if s.len() == 0 {
        Seq::empty()
    } else {
        let c = s.first();
        if c == cur {
            if cnt + 1 <= cap {
                seq![c] + cap_runs(s.drop_first(), cur, cnt + 1, cap)
            } else {
                cap_runs(s.drop_first(), cur, cnt + 1, cap)
            }
        } else {
            seq![c] + cap_runs(s.drop_first(), c, 1, cap)
        }
    }
}

/// The capped output is never longer than the scanned sequence.
pub proof fn lemma_cap_runs_len(s: Seq<char>, cur: char, cnt: nat, cap: nat)
    ensures
        cap_runs(s, cur, cnt, cap).len() <= s.len(),
    decreases s.len(),
{
    if s.len() > 0 {
        lemma_cap_runs_len(s.drop_first(), cur, cnt + 1, cap);
        lemma_cap_runs_len(s.drop_first(), s.first(), 1, cap);
    }
}

proof fn lemma_contains_tail(s: Seq<char>, c: char)
    requires
        s.len() > 0,
        s.drop_first().contains(c),
    ensures
        s.contains(c),
{
    let t = choose|t: int| 0 <= t < s.drop_first().len() && s.drop_first()[t] == c;
    assert(s[t + 1] == c);
}

proof fn lemma_cap_runs_elem_at(s: Seq<char>, cur: char, cnt: nat, cap: nat, k: int)
    requires
        0 <= k < cap_runs(s, cur, cnt, cap).len(),
    ensures
        s.contains(cap_runs(s, cur, cnt, cap)[k]),
    decreases s.len(),
{
    let out = cap_runs(s, cur, cnt, cap);
    let c = out[k];
    if s.first() == cur {
        if cnt + 1 <= cap {
            if k == 0 {
                assert(s[0] == c);
            } else {
                lemma_cap_runs_elem_at(s.drop_first(), cur, cnt + 1, cap, k - 1);
                lemma_contains_tail(s, c);
            }
        } else {
            lemma_cap_runs_elem_at(s.drop_first(), cur, cnt + 1, cap, k);
            lemma_contains_tail(s, c);
        }
    } else {
        if k == 0 {
            assert(s[0] == c);
        } else {
            lemma_cap_runs_elem_at(s.drop_first(), s.first(), 1, cap, k - 1);
            lemma_contains_tail(s, c);
        }
    }
}

/// Every letter of the capped output occurs in the scanned sequence.
pub proof fn lemma_cap_runs_elems(s: Seq<char>, cur: char, cnt: nat, cap: nat)
    ensures
        forall|c: char| cap_runs(s, cur, cnt, cap).contains(c) ==> s.contains(c),
{
    assert forall|c: char| cap_runs(s, cur, cnt, cap).contains(c) implies s.contains(c) by {
        let out = cap_runs(s, cur, cnt, cap);
        let k = choose|k: int| 0 <= k < out.len() && out[k] == c;
        lemma_cap_runs_elem_at(s, cur, cnt, cap, k);
    }
}

/// Relies on `String::push`: it appends exactly the given character.
#[verifier::external_body]
fn push_char(s: &mut String, c: char)
    ensures
        final(s)@ == old(s)@.push(c),
{
    s.push(c);
}

/// Copies the grid into one row-major letter sequence.
fn flatten_grid(g: &Vec<Vec<char>>) -> (flat: Vec<char>)
    ensures
        flat@ == concat_rows(g.deep_view()),
{
    let mut flat: Vec<char> = Vec::new();
    let mut y: usize = 0;
    while y < g.len()
        invariant
            y <= g@.len(),
            flat@ == concat_rows(g.deep_view().take(y as int)),
        decreases g@.len() - y,
    {
        let row = &g[y];
        flat.extend_from_slice(row.as_slice());
        proof {
            let d = g.deep_view();
            assert(d.take(y as int + 1).drop_last() =~= d.take(y as int));
            assert(d.take(y as int + 1).last() == d[y as int]);
            assert(d[y as int] == g@[y as int]@);
        }
        y += 1;
    }
    proof {
        assert(g.deep_view().take(g@.len() as int) =~= g.deep_view());
    }
    flat
}

/// Serializes the grid row-major into a string, keeping at most
/// `max_consecutive` copies of any run of one letter. Run tracking crosses
/// row boundaries: a run split over two rows is still one run.
pub fn flatten_letter_matrix_with_limit(
    letter_matrix: &Vec<Vec<char>>,
    max_consecutive: usize,
) -> (r: String)
    requires
        max_consecutive >= 1,
    ensures
        r@ == cap_runs(
            concat_rows(letter_matrix.deep_view()),
            '_',
            0,
            max_consecutive as nat,
        ),
        r@.len() <= concat_rows(letter_matrix.deep_view()).len(),
{
    let flat = flatten_grid(letter_matrix);
    let n = flat.len();
    let mut result = String::new();
    let mut current: char = '_';
    let mut count: usize = 0;
    let mut i: usize = 0;
    proof {
        assert(flat@.skip(0) =~= flat@);
        assert(Seq::<char>::empty() + cap_runs(flat@, '_', 0, max_consecutive as nat) =~= cap_runs(
            flat@,
            '_',
            0,
            max_consecutive as nat,
        ));
    }
    while i < n
        invariant
            n == flat@.len(),
            i <= n,
            count <= i,
            max_consecutive >= 1,
            cap_runs(flat@, '_', 0, max_consecutive as nat) == result@ + cap_runs(
                flat@.skip(i as int),
                current,
                count as nat,
                max_consecutive as nat,
            ),
        decreases n - i,
    {
        let ch = flat[i];
        let ghost rem = flat@.skip(i as int);
        let ghost r0 = result@;
        proof {
            assert(rem.first() == ch);
            assert(rem.drop_first() =~= flat@.skip(i as int + 1));
        }
        if ch == current {
            count += 1;
            if count <= max_consecutive {
                push_char(&mut result, ch);
                proof {
                    assert(r0 + (seq![ch] + cap_runs(
                        flat@.skip(i as int + 1),
                        current,
                        count as nat,
                        max_consecutive as nat,
                    )) =~= result@ + cap_runs(
                        flat@.skip(i as int + 1),
                        current,
                        count as nat,
                        max_consecutive as nat,
                    ));
                }
            }
        } else {
            current = ch;
            count = 1;
            push_char(&mut result, ch);
            proof {
                assert(r0 + (seq![ch] + cap_runs(
                    flat@.skip(i as int + 1),
                    current,
                    count as nat,
                    max_consecutive as nat,
                )) =~= result@ + cap_runs(
                    flat@.skip(i as int + 1),
                    current,
                    count as nat,
                    max_consecutive as nat,
                ));
            }
        }
        i += 1;
    }
    proof {
        assert(flat@.skip(n as int) =~= Seq::<char>::empty());
        assert(result@ + Seq::<char>::empty() =~= result@);
        lemma_cap_runs_len(flat@, '_', 0, max_consecutive as nat);
    }
    result
}

/// Run capping sees only the row-major letter sequence: two grids that read
/// the same row-major flatten identically, however their rows split the
/// letters. A run crossing a row boundary is capped as one continuous run.
pub proof fn lemma_row_boundaries_irrelevant(g1: Seq<Seq<char>>, g2: Seq<Seq<char>>, cap: nat)
    requires
        concat_rows(g1) == concat_rows(g2),
    ensures
        cap_runs(concat_rows(g1), '_', 0, cap) == cap_runs(concat_rows(g2), '_', 0, cap),
{
}

/// In a sequence of one repeated letter the scan keeps exactly `cap` copies,
/// or all of them if there are fewer: one run, capped.
pub proof fn lemma_uniform_seq_caps(s: Seq<char>, c: char, cur: char, cap: nat)
    requires
        cap >= 1,
        c != cur,
        forall|k: int| 0 <= k < s.len() ==> s[k] == c,
    ensures
        cap_runs(s, cur, 0, cap).len() == if s.len() <= cap {
            s.len() as int
        } else {
            cap as int
        },
{
    if s.len() > 0 {
        assert(s.first() == c);
        lemma_uniform_seq_in_run(s.drop_first(), c, 1, cap);
    }
}

proof fn lemma_concat_rows_all(g: Seq<Seq<char>>, c: char)
    requires
        forall|y: int, x: int|
            0 <= y < g.len() && 0 <= x < g[y].len() ==> #[trigger] g[y][x] == c,
    ensures
        forall|k: int| 0 <= k < concat_rows(g).len() ==> concat_rows(g)[k] == c,
    decreases g.len(),
{
    if g.len() > 0 {
        lemma_concat_rows_all(g.drop_last(), c);
        let left = concat_rows(g.drop_last());
        assert forall|k: int| 0 <= k < concat_rows(g).len() implies concat_rows(g)[k] == c by {
            if k >= left.len() {
                assert(concat_rows(g)[k] == g.last()[k - left.len()]);
                assert(g[g.len() - 1][k - left.len()] == c);
            }
        }
    }
}

/// A grid whose cells all carry the same letter flattens to one run of that
/// letter, capped: the letter string holds exactly `cap` letters, or every
/// cell's letter if the grid has fewer cells than the cap.
pub proof fn lemma_solid_grid_capped(g: Seq<Seq<char>>, c: char, cap: nat)
    requires
        cap >= 1,
        c != '_',
        forall|y: int, x: int|
            0 <= y < g.len() && 0 <= x < g[y].len() ==> #[trigger] g[y][x] == c,
    ensures
        cap_runs(concat_rows(g), '_', 0, cap).len() == if concat_rows(g).len() <= cap {
            concat_rows(g).len() as int
        } else {
            cap as int
        },
{
    lemma_concat_rows_all(g, c);
    lemma_uniform_seq_caps(concat_rows(g), c, '_', cap);
}

proof fn lemma_uniform_seq_in_run(s: Seq<char>, c: char, cnt: nat, cap: nat)
    requires
        cnt >= 1,
        forall|k: int| 0 <= k < s.len() ==> s[k] == c,
    ensures
        cap_runs(s, c, cnt, cap).len() == if cnt >= cap {
            0
        } else if s.len() <= cap - cnt {
            s.len() as int
        } else {
            cap - cnt
        },
    decreases s.len(),
{
    if s.len() > 0 {
        assert(s.first() == c);
        lemma_uniform_seq_in_run(s.drop_first(), c, cnt + 1, cap);
    }
}

} // verus!
