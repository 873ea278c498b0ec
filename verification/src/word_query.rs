use vstd::prelude::*;
use vstd::multiset::Multiset;

verus! {

/// At most this many completions are returned for one query.
pub const MAX_VEC_LENGTH: usize = 10;

/// How a query compares to a dictionary word, judged on the query's prefix.
#[derive(Clone, Copy, PartialEq, Eq, Structural, Debug)]
pub enum Equality {
    Equal,
    QueryGreater,
    QueryLesser,
}

/// Compare two character sequences position by position (by their first
/// byte, as the dictionary is plain lowercase words), the first exhausted
/// position deciding equality.
pub open spec fn cmp_chars(q: Seq<char>, r: Seq<char>) -> Equality
    decreases q.len(),
{
    if q.len() == 0 || r.len() == 0 {
        Equality::Equal
    } else if q[0] == r[0] {
        cmp_chars(q.drop_first(), r.drop_first())
    } else if q[0] as u8 > r[0] as u8 {
        Equality::QueryGreater
    } else {
        Equality::QueryLesser
    }
}

/// The prefix comparison: the query, truncated to the word's length,
/// against the word; `Equal` means the query is a prefix of the word.
pub open spec fn is_equal_spec(q: Seq<char>, res: Seq<char>) -> Equality {
    if q.len() > res.len() {
        cmp_chars(q.take(res.len() as int), res)
    } else {
        cmp_chars(q, res)
    }
}

fn is_equal(query_in: &String, res: &String) -> (e: Equality)
    ensures
        e == is_equal_spec(query_in@, res@),
{
    let q_len = query_in.as_str().unicode_len();
    let r_len = res.as_str().unicode_len();
    let n = if q_len > r_len {
        r_len
    } else {
        q_len
    };
    let mut i: usize = 0;
    proof {
        assert(query_in@.skip(0) =~= query_in@);
        assert(res@.skip(0) =~= res@);
        if q_len > r_len {
            assert(query_in@.skip(0).take(r_len as int) =~= query_in@.take(r_len as int));
        } else {
            assert(query_in@.skip(0).take(q_len as int) =~= query_in@);
        }
    }
    while i < n
        invariant
            i <= n,
            n == if query_in@.len() > res@.len() {
                res@.len()
            } else {
                query_in@.len()
            },
            q_len == query_in@.len(),
            r_len == res@.len(),
            is_equal_spec(query_in@, res@) == cmp_chars(
                query_in@.skip(i as int).take(if q_len > r_len {
                    r_len - i
                } else {
                    q_len - i
                }),
                res@.skip(i as int),
            ),
        decreases n - i,
    {
        let c = query_in.as_str().get_char(i);
        let to = res.as_str().get_char(i);
        proof {
            let qrest = query_in@.skip(i as int).take(if q_len > r_len {
                (r_len - i) as int
            } else {
                (q_len - i) as int
            });
            let rrest = res@.skip(i as int);
            assert(qrest[0] == query_in@[i as int]);
            assert(rrest[0] == res@[i as int]);
            assert(qrest.drop_first() =~= query_in@.skip(i + 1).take(if q_len > r_len {
                (r_len - (i + 1)) as int
            } else {
                (q_len - (i + 1)) as int
            }));
            assert(rrest.drop_first() =~= res@.skip(i + 1));
        }
        if c == to {
            i = i + 1;
        } else if #[verifier::truncate] (c as u8) > #[verifier::truncate] (to as u8) {
            return Equality::QueryGreater;
        } else {
            return Equality::QueryLesser;
        }
    }
    proof {
        let qrest = query_in@.skip(n as int).take(if q_len > r_len {
            (r_len - n) as int
        } else {
            (q_len - n) as int
        });
        assert(qrest.len() == 0 || res@.skip(n as int).len() == 0);
    }
    Equality::Equal
}

/// Relies on str::to_lowercase: the result depends on the characters alone.
pub uninterp spec fn lower_of(s: Seq<char>) -> Seq<char>;

#[verifier::external_body]
fn lowercase(s: &str) -> (r: String)
    ensures
        r@ == lower_of(s@),
{
    s.to_lowercase()
}

/// Relies on str::trim: the result depends on the characters alone.
pub uninterp spec fn trim_of(s: Seq<char>) -> Seq<char>;

#[verifier::external_body]
fn trimmed(s: &str) -> (r: &str)
    ensures
        r@ == trim_of(s@),
{
    s.trim()
}

/// The query as it is actually matched: trimmed, then folded to lower case.
pub open spec fn folded_query(q: Seq<char>) -> Seq<char> {
    lower_of(trim_of(q))
}

/// What `query` returns: `r` is the contiguous run of `v` starting at `s`
/// whose every word has the folded query `q` as prefix (in the sense of
/// `is_equal_spec`), beginning at the run's first word and ending at the
/// run's last word, the list's end, or the `MAX_VEC_LENGTH` cap.
pub open spec fn query_run(v: Seq<String>, q: Seq<char>, r: Seq<String>, s: int) -> bool {
    &&& 0 <= s
    &&& s + r.len() <= v.len()
    &&& forall|k: int|
        0 <= k < r.len() ==> (#[trigger] r[k])@ == v[s + k]@ && is_equal_spec(q, v[s + k]@)
            == Equality::Equal
    &&& r.len() > 0 ==> (s == 0 || is_equal_spec(q, v[s - 1]@) != Equality::Equal)
    &&& r.len() > 0 ==> (s + r.len() == v.len() || r.len() == MAX_VEC_LENGTH || is_equal_spec(
        q,
        v[s + r.len()]@,
    ) != Equality::Equal)
}

/// The words matching the query, by binary search in a sorted lowercase
/// word list: a contiguous matching run (see `query_run`). A query the
/// binary search cannot land on yields nothing.
pub fn query(query_in: &String, v: &Vec<String>) -> (r: Vec<String>)
    ensures
        r@.len() <= MAX_VEC_LENGTH,
        exists|s: int| #[trigger] query_run(v@, folded_query(query_in@), r@, s),
{
    let q = lowercase(trimmed(query_in.as_str()));
    let mut lower: usize = 0;
    let mut upper: usize = v.len();
    while lower < upper
        invariant
            lower <= upper <= v@.len(),
            q@ == folded_query(query_in@),
        decreases upper - lower,
    {
        let at = lower + (upper - lower) / 2;
        match is_equal(&q, &v[at]) {
            Equality::Equal => {
                let start_index = go_back(v, &q, at);
                let run_end = go_forward(start_index, v, &q, at);
                let end_index = if run_end - start_index > MAX_VEC_LENGTH {
                    start_index + MAX_VEC_LENGTH
                } else {
                    run_end
                };
                let mut out: Vec<String> = Vec::new();
                let mut j = start_index;
                while j < end_index
                    invariant
                        start_index <= j <= end_index,
                        end_index <= v@.len(),
                        end_index - start_index <= MAX_VEC_LENGTH,
                        q@ == folded_query(query_in@),
                        forall|t: int|
                            start_index <= t < run_end ==> is_equal_spec(
                                q@,
                                (#[trigger] v@[t])@,
                            ) == Equality::Equal,
                        end_index <= run_end <= v@.len(),
                        out@.len() == j - start_index,
                        forall|k: int|
                            0 <= k < out@.len() ==> (#[trigger] out@[k])@ == v@[
                                start_index + k
                            ]@,
                    decreases end_index - j,
                {
                    out.push(v[j].clone());
                    j = j + 1;
                }
                proof {
                    assert(out@.len() == end_index - start_index);
                    if end_index < run_end {
                        assert(out@.len() == MAX_VEC_LENGTH);
                    }
                    assert(query_run(
                        v@,
                        folded_query(query_in@),
                        out@,
                        start_index as int,
                    ));
                }
                return out;
            },
            Equality::QueryLesser => {
                upper = at;
            },
            Equality::QueryGreater => {
                lower = at + 1;
            },
        }
    }
    let empty_result: Vec<String> = Vec::new();
    proof {
        assert(query_run(v@, folded_query(query_in@), empty_result@, 0));
    }
    empty_result
}

/// Walk back to the first word of the run that matches the query.
fn go_back(v: &Vec<String>, query: &String, index: usize) -> (r: usize)
    requires
        index < v@.len(),
        is_equal_spec(query@, v@[index as int]@) == Equality::Equal,
    ensures
        r <= index,
        forall|t: int| r <= t <= index ==> is_equal_spec(query@, (#[trigger] v@[t])@)
            == Equality::Equal,
        r == 0 || is_equal_spec(query@, v@[r - 1]@) != Equality::Equal,
{
    let mut r = index;
    while r > 0
        invariant
            r <= index,
            index < v@.len(),
            forall|t: int| r <= t <= index ==> is_equal_spec(query@, (#[trigger] v@[t])@)
                == Equality::Equal,
        decreases r,
    {
        let prev = match is_equal(query, &v[r - 1]) {
            Equality::Equal => true,
            _ => false,
        };
        if !prev {
            return r;
        }
        r = r - 1;
    }
    r
}

/// Walk forward past the last word of the run that matches the query,
/// taking at most `MAX_VEC_LENGTH` words from `start`.
fn go_forward(start: usize, v: &Vec<String>, query: &String, index: usize) -> (r: usize)
    requires
        start <= index < v@.len(),
        forall|t: int| start <= t <= index ==> is_equal_spec(query@, (#[trigger] v@[t])@)
            == Equality::Equal,
    ensures
        index < r <= v@.len(),
        forall|t: int| start <= t < r ==> is_equal_spec(query@, (#[trigger] v@[t])@)
            == Equality::Equal,
        r == v@.len() || r - start >= MAX_VEC_LENGTH || is_equal_spec(query@, v@[r as int]@)
            != Equality::Equal,
{
    let n = v.len();
    let mut r = index + 1;
    while r < n && r - start < MAX_VEC_LENGTH
        invariant
            n == v@.len(),
            index < r <= v@.len(),
            start <= index,
            forall|t: int| start <= t < r ==> is_equal_spec(query@, (#[trigger] v@[t])@)
                == Equality::Equal,
        decreases n - r,
    {
        let more = match is_equal(query, &v[r]) {
            Equality::Equal => true,
            _ => false,
        };
        if !more {
            return r;
        }
        r = r + 1;
    }
    r
}


// ---- preparing the word list the queries search ----

/// Lexicographic order on character sequences, by code point.
pub open spec fn lex_leq(a: Seq<char>, b: Seq<char>) -> bool
    decreases a.len(),
{
    if a.len() == 0 {
        true
    } else if b.len() == 0 {
        false
    } else if a[0] as u32 == b[0] as u32 {
        lex_leq(a.drop_first(), b.drop_first())
    } else {
        (a[0] as u32) < (b[0] as u32)
    }
}

proof fn lemma_lex_total(a: Seq<char>, b: Seq<char>)
    ensures
        lex_leq(a, b) || lex_leq(b, a),
    decreases a.len(),
{
    if a.len() > 0 && b.len() > 0 && a[0] as u32 == b[0] as u32 {
        lemma_lex_total(a.drop_first(), b.drop_first());
    }
}

proof fn lemma_lex_trans(a: Seq<char>, b: Seq<char>, c: Seq<char>)
    requires
        lex_leq(a, b),
        lex_leq(b, c),
    ensures
        lex_leq(a, c),
    decreases a.len(),
{
    if a.len() > 0 {
        if b.len() > 0 && c.len() > 0 {
            if a[0] as u32 == b[0] as u32 && b[0] as u32 == c[0] as u32 {
                lemma_lex_trans(a.drop_first(), b.drop_first(), c.drop_first());
            }
        }
    }
}

fn lex_le(a: &String, b: &String) -> (r: bool)
    ensures
        r == lex_leq(a@, b@),
{
    let a_len = a.as_str().unicode_len();
    let b_len = b.as_str().unicode_len();
    let n = if a_len > b_len {
        b_len
    } else {
        a_len
    };
    let mut i: usize = 0;
    proof {
        assert(a@.skip(0) =~= a@);
        assert(b@.skip(0) =~= b@);
    }
    while i < n
        invariant
            i <= n,
            n == if a@.len() > b@.len() {
                b@.len()
            } else {
                a@.len()
            },
            a_len == a@.len(),
            b_len == b@.len(),
            lex_leq(a@, b@) == lex_leq(a@.skip(i as int), b@.skip(i as int)),
        decreases n - i,
    {
        let ca = a.as_str().get_char(i);
        let cb = b.as_str().get_char(i);
        proof {
            assert(a@.skip(i as int)[0] == a@[i as int]);
            assert(b@.skip(i as int)[0] == b@[i as int]);
            assert(a@.skip(i as int).drop_first() =~= a@.skip(i + 1));
            assert(b@.skip(i as int).drop_first() =~= b@.skip(i + 1));
        }
        if ca as u32 == cb as u32 {
            i = i + 1;
        } else {
            return (ca as u32) < (cb as u32);
        }
    }
    proof {
        assert(a@.skip(n as int).len() == 0 || b@.skip(n as int).len() == 0);
    }
    a_len <= b_len
}

/// Fold every raw word-list line to lower case, in order.
pub fn lowercase_all(lines: Vec<String>) -> (r: Vec<String>)
    ensures
        r@.len() == lines@.len(),
        forall|k: int| 0 <= k < lines@.len() ==> (#[trigger] r@[k])@ == lower_of(lines@[k]@),
{
    let mut r: Vec<String> = Vec::new();
    let mut i: usize = 0;
    while i < lines.len()
        invariant
            i <= lines@.len(),
            r@.len() == i,
            forall|k: int| 0 <= k < i ==> (#[trigger] r@[k])@ == lower_of(lines@[k]@),
        decreases lines@.len() - i,
    {
        r.push(lowercase(lines[i].as_str()));
        i = i + 1;
    }
    r
}

/// Sort the word list ascending by code point — the order the binary
/// search relies on.
pub fn sort_words(words: Vec<String>) -> (r: Vec<String>)
    ensures
        r@.to_multiset() == words@.to_multiset(),
        forall|i: int, j: int|
            0 <= i < j < r@.len() ==> lex_leq((#[trigger] r@[i])@, (#[trigger] r@[j])@),
{
    broadcast use vstd::seq_lib::group_to_multiset_ensures;

    let ghost orig = words@;
    let mut remaining = words;
    let mut out: Vec<String> = Vec::new();
    proof {
        assert(out@.to_multiset().add(remaining@.to_multiset()) =~= orig.to_multiset());
    }
    while remaining.len() > 0
        invariant
            out@.to_multiset().add(remaining@.to_multiset()) == orig.to_multiset(),
            forall|i: int, j: int|
                0 <= i < j < out@.len() ==> lex_leq((#[trigger] out@[i])@, (#[trigger] out@[j])@),
        decreases remaining@.len(),
    {
        let ghost before = remaining@;
        let x = remaining.remove(0);
        let mut pos: usize = 0;
        while pos < out.len() && lex_le(&out[pos], &x)
            invariant
                pos <= out@.len(),
                forall|k: int| 0 <= k < pos ==> lex_leq((#[trigger] out@[k])@, x@),
            decreases out@.len() - pos,
        {
            pos = pos + 1;
        }
        proof {
            if pos < out@.len() {
                lemma_lex_total(out@[pos as int]@, x@);
            }
        }
        let ghost prev = out@;
        out.insert(pos, x);
        proof {
            broadcast use vstd::multiset::group_multiset_axioms;

            assert(out@ == prev.insert(pos as int, x));
            vstd::seq_lib::to_multiset_insert(prev, pos as int, x);
            assert(remaining@ == before.remove(0));
            vstd::seq_lib::to_multiset_remove(before, 0);
            assert(out@.to_multiset() =~= prev.to_multiset().insert(x));
            assert(remaining@.to_multiset() =~= before.to_multiset().remove(x));
            assert(before.to_multiset().count(x) >= 1) by {
                assert(before.contains(x)) by {
                    assert(before[0] == x);
                }
                vstd::seq_lib::to_multiset_contains(before, x);
            }
            assert(out@.to_multiset().add(remaining@.to_multiset()) =~= prev.to_multiset().add(
                before.to_multiset(),
            ));
            assert forall|i: int, j: int|
                0 <= i < j < out@.len() implies lex_leq(
                (#[trigger] out@[i])@,
                (#[trigger] out@[j])@,
            ) by {
                if j < pos {
                    assert(out@[i] == prev[i]);
                    assert(out@[j] == prev[j]);
                } else if j == pos {
                    assert(out@[i] == prev[i]);
                    assert(out@[j] == x);
                } else {
                    assert(out@[j] == prev[j - 1]);
                    if i < pos {
                        assert(out@[i] == prev[i]);
                        if pos < prev.len() {
                            lemma_lex_trans(prev[i]@, x@, prev[pos as int]@);
                        }
                        if i < j - 1 {
                        }
                        assert(lex_leq(prev[i]@, prev[j - 1]@));
                    } else if i == pos {
                        assert(out@[i] == x);
                        assert(lex_leq(x@, prev[pos as int]@));
                        if pos < j - 1 {
                            lemma_lex_trans(x@, prev[pos as int]@, prev[j - 1]@);
                        }
                    } else {
                        assert(out@[i] == prev[i - 1]);
                    }
                }
            }
        }
    }
    proof {
        assert(remaining@.to_multiset() =~= Multiset::<String>::empty());
    }
    out
}

} // verus!
