//! Reduction of a sequence of element symbols to a chemical formula.
use vstd::prelude::*;
use vstd::string::*;

verus! {

/// The views of a sequence of symbols.
pub open spec fn symbol_views(s: Seq<&str>) -> Seq<Seq<char>> {
    s.map_values(|x: &str| x@)
}

/// How often `x` occurs in `s`.
pub open spec fn occurrences(s: Seq<Seq<char>>, x: Seq<char>) -> nat
    decreases s.len(),
{
    if s.len() == 0 {
        0
    } else {
        occurrences(s.drop_last(), x) + if s.last() == x { 1nat } else { 0nat }
    }
}

/// The distinct members of `s`, each once, in the order of their first occurrence.
pub open spec fn first_occurrences(s: Seq<Seq<char>>) -> Seq<Seq<char>>
    decreases s.len(),
{
    if s.len() == 0 {
        Seq::empty()
    } else {
        let prefix = first_occurrences(s.drop_last());
        if s.drop_last().contains(s.last()) {
            prefix
        } else {
            prefix.push(s.last())
        }
    }
}

/// Each distinct symbol of `s` with its number of occurrences, in the order
/// of first occurrence.
pub open spec fn reduced(s: Seq<Seq<char>>) -> Seq<(Seq<char>, nat)> {
    first_occurrences(s).map_values(|x: Seq<char>| (x, occurrences(s, x)))
}

/// The character of a decimal digit.
pub open spec fn digit_char(d: nat) -> char {
    if d == 0 { '0' }
    else if d == 1 { '1' }
    else if d == 2 { '2' }
    else if d == 3 { '3' }
    else if d == 4 { '4' }
    else if d == 5 { '5' }
    else if d == 6 { '6' }
    else if d == 7 { '7' }
    else if d == 8 { '8' }
    else { '9' }
}

/// The decimal notation of `n`, without leading zeros.
pub open spec fn decimal(n: nat) -> Seq<char>
    decreases n,
{
    if n < 10 {
        seq![digit_char(n)]
    } else {
        decimal(n / 10).push(digit_char(n % 10))
    }
}

/// A symbol followed by its count, the count left out where it is one.
pub open spec fn fragment(x: Seq<char>, n: nat) -> Seq<char> {
    if n == 1 { x } else { x + decimal(n) }
}

/// The fragment of the entry of `r` keyed by `key`, or nothing when `r` has none.
pub open spec fn fragment_of(r: Seq<(Seq<char>, nat)>, key: Seq<char>) -> Seq<char>
    decreases r.len(),
{
    if r.len() == 0 {
        Seq::empty()
    } else if r.last().0 == key {
        fragment(r.last().0, r.last().1)
    } else {
        fragment_of(r.drop_last(), key)
    }
}

pub open spec fn carbon() -> Seq<char> {
    seq!['C']
}

pub open spec fn hydrogen() -> Seq<char> {
    seq!['H']
}

/// The fragments of the entries of `r` other than carbon and hydrogen, in order.
pub open spec fn other_fragments(r: Seq<(Seq<char>, nat)>) -> Seq<char>
    decreases r.len(),
{
    if r.len() == 0 {
        Seq::empty()
    } else {
        let rest = other_fragments(r.drop_last());
        if r.last().0 == carbon() || r.last().0 == hydrogen() {
            rest
        } else {
            rest + fragment(r.last().0, r.last().1)
        }
    }
}

/// The formula of a symbol sequence: carbon first, hydrogen last, the other
/// symbols between them in the order of their first occurrence.
pub open spec fn formula_of(s: Seq<Seq<char>>) -> Seq<char> {
    let r = reduced(s);
    fragment_of(r, carbon()) + other_fragments(r) + fragment_of(r, hydrogen())
}

/// The view of a list of counted symbols.
pub open spec fn counts_view(v: Seq<(String, usize)>) -> Seq<(Seq<char>, nat)> {
    v.map_values(|p: (String, usize)| (p.0@, p.1 as nat))
}

proof fn lemma_occurrences_bound(s: Seq<Seq<char>>, x: Seq<char>)
    ensures
        occurrences(s, x) <= s.len(),
    decreases s.len(),
{
    if s.len() > 0 {
        lemma_occurrences_bound(s.drop_last(), x);
    }
}

proof fn lemma_first_occurrences(s: Seq<Seq<char>>)
    ensures
        forall|x: Seq<char>| first_occurrences(s).contains(x) <==> s.contains(x),
        first_occurrences(s).no_duplicates(),
    decreases s.len(),
{
    if s.len() > 0 {
        let t = s.drop_last();
        lemma_first_occurrences(t);
        assert(s == t.push(s.last()));
        assert forall|x: Seq<char>| first_occurrences(s).contains(x) <==> s.contains(x) by {
            if t.contains(x) {
                let k = choose|k: int| 0 <= k < t.len() && t[k] == x;
                assert(s[k] == x);
                assert(first_occurrences(t).contains(x));
                let m = choose|m: int| 0 <= m < first_occurrences(t).len() && first_occurrences(t)[m] == x;
                if !t.contains(s.last()) {
                    assert(first_occurrences(s)[m] == x);
                }
            }
            if s.contains(x) && !t.contains(x) {
                let k = choose|k: int| 0 <= k < s.len() && s[k] == x;
                if k < t.len() {
                    assert(t[k] == x);
                }
                assert(k == s.len() - 1);
                assert(!t.contains(s.last()));
                assert(first_occurrences(s) == first_occurrences(t).push(x));
                assert(first_occurrences(s)[first_occurrences(s).len() - 1] == x);
            }
            if first_occurrences(s).contains(x) && !first_occurrences(t).contains(x) {
                let k = choose|k: int| 0 <= k < first_occurrences(s).len() && first_occurrences(s)[k] == x;
                if !t.contains(s.last()) {
                    if k < first_occurrences(t).len() {
                        assert(first_occurrences(t)[k] == x);
                    } else {
                        assert(first_occurrences(s)[k] == s.last());
                    }
                }
                assert(s[s.len() - 1] == x);
            }
        }
    }
}

/// The notation of a decimal digit.
fn digit_str(d: usize) -> (r: &'static str)
    requires
        d < 10,
    ensures
        r@ == seq![digit_char(d as nat)],
{
    proof {
        reveal_strlit("0");
        reveal_strlit("1");
        reveal_strlit("2");
        reveal_strlit("3");
        reveal_strlit("4");
        reveal_strlit("5");
        reveal_strlit("6");
        reveal_strlit("7");
        reveal_strlit("8");
        reveal_strlit("9");
    }
    if d == 0 { "0" }
    else if d == 1 { "1" }
    else if d == 2 { "2" }
    else if d == 3 { "3" }
    else if d == 4 { "4" }
    else if d == 5 { "5" }
    else if d == 6 { "6" }
    else if d == 7 { "7" }
    else if d == 8 { "8" }
    else { "9" }
}

/// The decimal notation of `n`.
fn decimal_string(n: usize) -> (r: String)
    ensures
        r@ == decimal(n as nat),
    decreases n,
{
    if n < 10 {
        String::from_str(digit_str(n))
    } else {
        let mut r = decimal_string(n / 10);
        r.append(digit_str(n % 10));
        r
    }
}

/// Counts the occurrences of each distinct symbol, listing the symbols in the
/// order of their first occurrence.
pub fn get_reduced_symbols(symbols: &[&str]) -> (r: Vec<(String, usize)>)
    ensures
        counts_view(r@) == reduced(symbol_views(symbols@)),
{
    let ghost s = symbol_views(symbols@);
    let mut counts: Vec<(String, usize)> = Vec::new();
    let mut i: usize = 0;
    while i < symbols.len()
        invariant
            0 <= i <= symbols@.len(),
            s == symbol_views(symbols@),
            counts_view(counts@) == reduced(s.take(i as int)),
        decreases symbols@.len() - i,
    {
        let ghost t = s.take(i as int);
        let ghost t1 = s.take(i + 1);
        proof {
            assert(t1.drop_last() == t);
            assert(t1.last() == s[i as int]);
            lemma_first_occurrences(t);
        }
        let sym = String::from_str(symbols[i]);
        let mut j: usize = 0;
        let mut found = false;
        while j < counts.len()
            invariant_except_break
                !found,
            invariant
                0 <= j <= counts@.len(),
                counts_view(counts@) == reduced(t),
                i < s.len(),
                sym@ == s[i as int],
                forall|k: int| 0 <= k < j ==> counts@[k].0@ != sym@,
            ensures
                found ==> j < counts@.len() && counts@[j as int].0@ == sym@,
                !found ==> j == counts@.len(),
            decreases counts@.len() - j,
        {
            if counts[j].0 == sym {
                found = true;
                break;
            }
            j = j + 1;
        }
        proof {
            assert(counts_view(counts@).len() == first_occurrences(t).len());
        }
        if found {
            proof {
                assert(counts_view(counts@)[j as int].0 == sym@);
                assert(counts_view(counts@)[j as int].1 == counts@[j as int].1 as nat);
                assert(first_occurrences(t)[j as int] == sym@);
                assert(first_occurrences(t).contains(sym@));
                lemma_occurrences_bound(t, sym@);
                assert(counts@[j as int].1 <= i);
            }
            let ghost old_counts = counts@;
            let key = counts[j].0.clone();
            let c = counts[j].1;
            counts.set(j, (key, c + 1));
            proof {
                assert(t.contains(sym@));
                assert(first_occurrences(t1) == first_occurrences(t));
                let r1 = reduced(t1);
                let ft = first_occurrences(t);
                assert forall|k: int| 0 <= k < r1.len() implies counts_view(counts@)[k] == r1[k] by {
                    if k != j {
                        assert(ft[k] != ft[j as int]);
                        assert(counts_view(counts@)[k] == counts_view(old_counts)[k]);
                        assert(occurrences(t1, ft[k]) == occurrences(t, ft[k]));
                    } else {
                        assert(occurrences(t1, sym@) == occurrences(t, sym@) + 1);
                    }
                }
                assert(counts_view(counts@) =~= reduced(t1));
            }
        } else {
            proof {
                assert forall|k: int| 0 <= k < first_occurrences(t).len() implies
                    first_occurrences(t)[k] != sym@ by {
                    assert(counts_view(counts@)[k].0 == first_occurrences(t)[k]);
                }
                assert(!t.contains(sym@));
                assert(first_occurrences(t1) == first_occurrences(t).push(sym@));
                assert(occurrences(t, sym@) == 0) by {
                    lemma_zero_occurrences(t, sym@);
                }
            }
            let ghost old_counts = counts@;
            counts.push((sym, 1));
            proof {
                let r1 = reduced(t1);
                assert forall|k: int| 0 <= k < r1.len() implies counts_view(counts@)[k] == r1[k] by {
                    if k < first_occurrences(t).len() {
                        assert(first_occurrences(t)[k] != sym@);
                        assert(counts_view(counts@)[k] == counts_view(old_counts)[k]);
                        assert(occurrences(t1, first_occurrences(t)[k]) == occurrences(t, first_occurrences(t)[k]));
                    } else {
                        assert(occurrences(t1, sym@) == 1);
                    }
                }
                assert(counts_view(counts@) =~= reduced(t1));
            }
        }
        i = i + 1;
    }
    proof {
        assert(s.take(symbols@.len() as int) =~= s);
    }
    counts
}

proof fn lemma_zero_occurrences(s: Seq<Seq<char>>, x: Seq<char>)
    requires
        !s.contains(x),
    ensures
        occurrences(s, x) == 0,
    decreases s.len(),
{
    if s.len() > 0 {
        assert(!s.drop_last().contains(x)) by {
            if s.drop_last().contains(x) {
                let k = choose|k: int| 0 <= k < s.drop_last().len() && s.drop_last()[k] == x;
                assert(s[k] == x);
            }
        }
        lemma_zero_occurrences(s.drop_last(), x);
    }
}

/// Renders a symbol with its count, the count left out where it is one.
fn render_fragment(key: &String, n: usize) -> (r: String)
    ensures
        r@ == fragment(key@, n as nat),
{
    let mut f = key.clone();
    if n != 1 {
        let digits = decimal_string(n);
        f.append(digits.as_str());
    }
    f
}

/// The chemical formula of a symbol sequence: each distinct symbol with its
/// count (left out where it is one), carbon first, hydrogen last, the other
/// symbols between them in the order of their first occurrence. The empty
/// sequence gives the empty formula.
pub fn get_reduced_formula(symbols: &[&str]) -> (r: String)
    ensures
        r@ == formula_of(symbol_views(symbols@)),
{
    let counts = get_reduced_symbols(symbols);
    let ghost rs = counts_view(counts@);
    let c_key = String::from_str("C");
    let h_key = String::from_str("H");
    proof {
        reveal_strlit("C");
        reveal_strlit("H");
        assert(carbon()[0] != hydrogen()[0]);
    }
    let mut head = String::new();
    let mut middle = String::new();
    let mut tail = String::new();
    let mut i: usize = 0;
    while i < counts.len()
        invariant
            0 <= i <= counts@.len(),
            rs == counts_view(counts@),
            c_key@ == carbon(),
            h_key@ == hydrogen(),
            carbon() != hydrogen(),
            head@ == fragment_of(rs.take(i as int), carbon()),
            middle@ == other_fragments(rs.take(i as int)),
            tail@ == fragment_of(rs.take(i as int), hydrogen()),
        decreases counts@.len() - i,
    {
        let ghost t1 = rs.take(i + 1);
        proof {
            assert(t1.drop_last() == rs.take(i as int));
            assert(t1.last() == rs[i as int]);
            assert(rs[i as int] == (counts@[i as int].0@, counts@[i as int].1 as nat));
        }
        let f = render_fragment(&counts[i].0, counts[i].1);
        if counts[i].0 == c_key {
            head = f;
        } else if counts[i].0 == h_key {
            tail = f;
        } else {
            middle.append(f.as_str());
        }
        i = i + 1;
    }
    proof {
        assert(rs.take(counts@.len() as int) == rs);
    }
    head.append(middle.as_str());
    head.append(tail.as_str());
    head
}

} // verus!
