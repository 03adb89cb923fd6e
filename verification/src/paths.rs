use vstd::prelude::*;

verus! {

// Paths are plain strings here. A candidate destination that is already
// taken is renamed `stem(1).ext`, `stem(2).ext`, ... — the first free
// number wins. Existence on disk is modelled by an explicit snapshot of
// occupied paths, handed in by the caller.

/// The views of a list of path strings.
pub open spec fn str_views(v: Seq<String>) -> Seq<Seq<char>> {
    v.map_values(|t: String| t@)
}

/// One more than the index of the last occurrence of `c` in `s`;
/// zero when `c` does not occur.
pub open spec fn last_index_plus1(s: Seq<char>, c: char) -> int
    decreases s.len(),
{
    if s.len() == 0 {
        0
    } else if s.last() == c {
        s.len() as int
    } else {
        last_index_plus1(s.drop_last(), c)
    }
}

proof fn lemma_lip_bounds(s: Seq<char>, c: char)
    ensures
        0 <= last_index_plus1(s, c) <= s.len(),
    decreases s.len(),
{
    if s.len() > 0 && s.last() != c {
        lemma_lip_bounds(s.drop_last(), c);
    }
}

/// Where the counter is spliced into a path: just before the final
/// extension of the file name (the part after the last `/`), or at the
/// end when the name has no extension. A leading dot, as in `.bashrc`,
/// does not begin an extension.
pub open spec fn insert_pos(p: Seq<char>) -> int {
    let slash_end = last_index_plus1(p, '/');
    let name = p.skip(slash_end);
    let d = last_index_plus1(name, '.');
    if d >= 2 {
        slash_end + (d - 1)
    } else {
        p.len() as int
    }
}

proof fn lemma_insert_pos_bounds(p: Seq<char>)
    ensures
        0 <= insert_pos(p) <= p.len(),
{
    lemma_lip_bounds(p, '/');
    lemma_lip_bounds(p.skip(last_index_plus1(p, '/')), '.');
}

/// The extension of a file name: what follows the last dot, or empty
/// when there is no dot past the first character.
pub open spec fn ext_of(name: Seq<char>) -> Seq<char> {
    let d = last_index_plus1(name, '.');
    if d >= 2 {
        name.skip(d)
    } else {
        Seq::empty()
    }
}

/// The extension of a file name, as classification sees it.
pub fn extension_of(name: &str) -> (r: String)
    ensures
        r@ == ext_of(name@),
{
    let n = name.unicode_len();
    let d = last_index_plus1_exec(name, '.');
    if d >= 2 {
        let s = name.substring_char(d, n);
        proof {
            assert(s@ =~= name@.skip(d as int));
        }
        String::from_str(s)
    } else {
        String::new()
    }
}

pub open spec fn digit_char(d: nat) -> char {
    if d == 0 {
        '0'
    } else if d == 1 {
        '1'
    } else if d == 2 {
        '2'
    } else if d == 3 {
        '3'
    } else if d == 4 {
        '4'
    } else if d == 5 {
        '5'
    } else if d == 6 {
        '6'
    } else if d == 7 {
        '7'
    } else if d == 8 {
        '8'
    } else {
        '9'
    }
}

/// The decimal numeral of `n`, most significant digit first.
pub open spec fn dec_rep(n: nat) -> Seq<char>
    decreases n,
{
    if n < 10 {
        seq![digit_char(n)]
    } else {
        dec_rep(n / 10) + seq![digit_char(n % 10)]
    }
}

proof fn lemma_dec_rep_len(n: nat)
    ensures
        dec_rep(n).len() >= 1,
    decreases n,
{
    if n >= 10 {
        lemma_dec_rep_len(n / 10);
    }
}

/// Decimal numerals are unique: equal numerals mean equal numbers.
proof fn lemma_dec_rep_injective(a: nat, b: nat)
    requires
        dec_rep(a) == dec_rep(b),
    ensures
        a == b,
    decreases a,
{
    lemma_dec_rep_len(a);
    lemma_dec_rep_len(b);
    if a < 10 && b < 10 {
        assert(dec_rep(a)[0] == digit_char(a));
        assert(dec_rep(b)[0] == digit_char(b));
    } else if a < 10 && b >= 10 {
        lemma_dec_rep_len(b / 10);
        assert(dec_rep(b).len() >= 2);
    } else if a >= 10 && b < 10 {
        lemma_dec_rep_len(a / 10);
        assert(dec_rep(a).len() >= 2);
    } else {
        assert(dec_rep(a).last() == digit_char(a % 10));
        assert(dec_rep(b).last() == digit_char(b % 10));
        assert(a % 10 == b % 10);
        assert(dec_rep(a).drop_last() =~= dec_rep(a / 10));
        assert(dec_rep(b).drop_last() =~= dec_rep(b / 10));
        lemma_dec_rep_injective(a / 10, b / 10);
    }
}

/// The `i`-th renamed candidate for a taken path: the counter `(i)` is
/// spliced in just before the extension.
pub open spec fn numbered_candidate(p: Seq<char>, i: nat) -> Seq<char> {
    let k = insert_pos(p);
    p.subrange(0, k) + seq!['('] + dec_rep(i) + seq![')'] + p.subrange(k, p.len() as int)
}

/// Distinct counters give distinct candidate names.
proof fn lemma_candidates_distinct(p: Seq<char>, i: nat, j: nat)
    requires
        i != j,
    ensures
        numbered_candidate(p, i) != numbered_candidate(p, j),
{
    lemma_insert_pos_bounds(p);
    let k = insert_pos(p);
    let ci = numbered_candidate(p, i);
    let cj = numbered_candidate(p, j);
    if ci == cj {
        lemma_dec_rep_len(i);
        lemma_dec_rep_len(j);
        let li = dec_rep(i).len();
        let lj = dec_rep(j).len();
        assert(ci.len() == p.len() + 2 + li);
        assert(cj.len() == p.len() + 2 + lj);
        assert(li == lj);
        assert forall|m: int| 0 <= m < li implies dec_rep(i)[m] == dec_rep(j)[m] by {
            assert(ci[k + 1 + m] == dec_rep(i)[m]);
            assert(cj[k + 1 + m] == dec_rep(j)[m]);
        }
        assert(dec_rep(i) =~= dec_rep(j));
        lemma_dec_rep_injective(i, j);
    }
}

fn last_index_plus1_exec(s: &str, c: char) -> (r: usize)
    ensures
        r == last_index_plus1(s@, c),
        r <= s@.len(),
{
    let n = s.unicode_len();
    proof {
        assert(s@.take(n as int) =~= s@);
    }
    let mut j: usize = n;
    while j > 0
        invariant
            j <= n,
            n == s@.len(),
            last_index_plus1(s@, c) == last_index_plus1(s@.take(j as int), c),
        decreases j,
    {
        if s.get_char(j - 1) == c {
            proof {
                assert(s@.take(j as int).last() == s@[j - 1]);
            }
            return j;
        }
        proof {
            assert(s@.take(j as int).last() == s@[j - 1]);
            assert(s@.take(j as int).drop_last() =~= s@.take(j as int - 1));
        }
        j -= 1;
    }
    proof {
        assert(s@.take(0).len() == 0);
    }
    0
}

fn insert_pos_exec(p: &str) -> (k: usize)
    ensures
        k == insert_pos(p@),
        k <= p@.len(),
{
    let n = p.unicode_len();
    let slash_end = last_index_plus1_exec(p, '/');
    let name = p.substring_char(slash_end, n);
    proof {
        assert(name@ =~= p@.skip(slash_end as int));
    }
    let d = last_index_plus1_exec(name, '.');
    if d >= 2 {
        slash_end + (d - 1)
    } else {
        n
    }
}

fn digit_str(d: u64) -> (r: &'static str)
    requires
        d < 10,
    ensures
        r@ == seq![digit_char(d as nat)],
{
    let r: &'static str = if d == 0 {
        "0"
    } else if d == 1 {
        "1"
    } else if d == 2 {
        "2"
    } else if d == 3 {
        "3"
    } else if d == 4 {
        "4"
    } else if d == 5 {
        "5"
    } else if d == 6 {
        "6"
    } else if d == 7 {
        "7"
    } else if d == 8 {
        "8"
    } else {
        "9"
    };
    proof {
        reveal_strlit("0");
        reveal_strlit("1");
        reveal_strlit("2");
        reveal_strlit("3");
        reveal_strlit("4");
        reveal_strlit("5");
        reveal_strlit("6");
        reveal_strlit("7");
        reveal_strlit("8");
        reveal_strlit("9");
        assert(r@ =~= seq![digit_char(d as nat)]);
    }
    r
}

/// The decimal numeral of `n` as a string.
fn dec_u64(n: u64) -> (s: String)
    ensures
        s@ == dec_rep(n as nat),
    decreases n,
{
    if n < 10 {
        String::from_str(digit_str(n))
    } else {
        let mut s = dec_u64(n / 10);
        s.append(digit_str(n % 10));
        s
    }
}

fn numbered_candidate_exec(p: &str, i: u64) -> (r: String)
    ensures
        r@ == numbered_candidate(p@, i as nat),
{
    let n = p.unicode_len();
    let k = insert_pos_exec(p);
    let mut out = String::new();
    out.append(p.substring_char(0, k));
    out.append("(");
    let ds = dec_u64(i);
    out.append(ds.as_str());
    out.append(")");
    out.append(p.substring_char(k, n));
    proof {
        reveal_strlit("(");
        reveal_strlit(")");
        assert("("@ =~= seq!['(']);
        assert(")"@ =~= seq![')']);
        assert(out@ =~= numbered_candidate(p@, i as nat));
    }
    out
}

fn contains_string(v: &Vec<String>, s: &String) -> (r: bool)
    ensures
        r == str_views(v@).contains(s@),
{
    let mut i: usize = 0;
    while i < v.len()
        invariant
            i <= v.len(),
            forall|j: int| 0 <= j < i ==> str_views(v@)[j] != s@,
        decreases v.len() - i,
    {
        if v[i] == *s {
            proof {
                assert(str_views(v@)[i as int] == s@);
            }
            return true;
        }
        i += 1;
    }
    false
}

/// The candidates numbered 1 through `m`, as a set.
spec fn cand_set(p: Seq<char>, m: nat) -> Set<Seq<char>> {
    Set::new(|s: Seq<char>| exists|j: nat| 1 <= j <= m && s == numbered_candidate(p, j))
}

proof fn lemma_cand_set_card(p: Seq<char>, m: nat)
    ensures
        cand_set(p, m).finite(),
        cand_set(p, m).len() == m,
    decreases m,
{
    if m == 0 {
        assert(cand_set(p, 0) =~= Set::<Seq<char>>::empty());
    } else {
        lemma_cand_set_card(p, (m - 1) as nat);
        let c = numbered_candidate(p, m);
        assert forall|s: Seq<char>| cand_set(p, m).contains(s) implies cand_set(
            p,
            (m - 1) as nat,
        ).insert(c).contains(s) by {
            let j = choose|j: nat| 1 <= j <= m && s == numbered_candidate(p, j);
            if j <= m - 1 {
                assert(cand_set(p, (m - 1) as nat).contains(s));
            } else {
                assert(s == c);
            }
        }
        assert(cand_set(p, m) =~= cand_set(p, (m - 1) as nat).insert(c));
        if cand_set(p, (m - 1) as nat).contains(c) {
            let j = choose|j: nat| 1 <= j <= m - 1 && c == numbered_candidate(p, j);
            lemma_candidates_distinct(p, j, m);
        }
        assert(!cand_set(p, (m - 1) as nat).contains(c));
    }
}

/// Collision-free resolution. A path that is not taken is returned
/// unchanged; a taken one becomes its first numbered candidate, by
/// increasing counter, that is not taken either. The result is never a
/// path of the snapshot.
pub fn unique_path(path: &str, existing: &Vec<String>) -> (r: String)
    requires
        existing@.len() < usize::MAX - 1,
    ensures
        !str_views(existing@).contains(path@) ==> r@ == path@,
        str_views(existing@).contains(path@) ==> exists|i: nat|
            1 <= i && r@ == numbered_candidate(path@, i) && !str_views(existing@).contains(r@)
                && (forall|j: nat|
                1 <= j < i ==> str_views(existing@).contains(numbered_candidate(path@, j))),
        !str_views(existing@).contains(r@),
{
    let p = String::from_str(path);
    if !contains_string(existing, &p) {
        return p;
    }
    let n = existing.len();
    let mut i: usize = 1;
    while i <= n + 1
        invariant
            existing@.len() == n < usize::MAX - 1,
            str_views(existing@).contains(path@),
            1 <= i <= n + 2,
            forall|j: nat|
                1 <= j < i ==> str_views(existing@).contains(numbered_candidate(path@, j)),
        decreases n + 2 - i,
    {
        let cand = numbered_candidate_exec(path, i as u64);
        if !contains_string(existing, &cand) {
            proof {
                assert(1 <= (i as nat) && cand@ == numbered_candidate(path@, i as nat)
                    && !str_views(existing@).contains(cand@) && (forall|j: nat|
                    1 <= j < i as nat ==> str_views(existing@).contains(
                        numbered_candidate(path@, j),
                    )));
            }
            return cand;
        }
        i += 1;
    }
    proof {
        // Unreachable: the n+1 candidates probed are pairwise distinct,
        // so they cannot all lie in a snapshot of n paths.
        let ex = str_views(existing@);
        let c = cand_set(path@, (n + 1) as nat);
        lemma_cand_set_card(path@, (n + 1) as nat);
        assert forall|s: Seq<char>| c.contains(s) implies ex.to_set().contains(s) by {
            let j = choose|j: nat| 1 <= j <= n + 1 && s == numbered_candidate(path@, j);
            assert(ex.contains(numbered_candidate(path@, j)));
        }
        broadcast use vstd::seq_lib::seq_to_set_is_finite;

        ex.lemma_cardinality_of_set();
        vstd::set_lib::lemma_len_subset(c, ex.to_set());
        assert(false);
    }
    vstd::pervasive::unreached()
}

} // verus!
