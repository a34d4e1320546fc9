//! Decimal numerals and names that are fresh among a set of taken names.
use vstd::prelude::*;
use vstd::string::*;

verus! {

/// The character of a decimal digit.
pub open spec fn digit(d: nat) -> char {
    if d == 0 {
        '0'
    } else if d == 1 {
        '1'
    } else if d == 2 {
        '2'
    } else if d == 3 {
        '3'
    } else if d == 4 {
        '4'
    } else if d == 5 {
        '5'
    } else if d == 6 {
        '6'
    } else if d == 7 {
        '7'
    } else if d == 8 {
        '8'
    } else {
        '9'
    }
}

/// The decimal numeral of a natural number, without leading zeros.
pub open spec fn decimal(n: nat) -> Seq<char>
    decreases n,
{
    if n < 10 {
        seq![digit(n)]
    } else {
        decimal(n / 10).push(digit(n % 10))
    }
}

/// The numeral of a signed number: a minus sign before the numeral of the
/// magnitude of a negative one.
pub open spec fn signed_decimal(n: int) -> Seq<char> {
    if n < 0 {
        seq!['-'] + decimal((-n) as nat)
    } else {
        decimal(n as nat)
    }
}

/// Distinct numbers have distinct numerals.
pub proof fn lemma_decimal_injective(a: nat, b: nat)
    requires
        decimal(a) == decimal(b),
    ensures
        a == b,
    decreases a,
{
    let da = decimal(a);
    let db = decimal(b);
    if a < 10 {
        if b >= 10 {
            lemma_decimal_len(b / 10);
            assert(db.len() >= 2);
            assert(da.len() == 1);
        }
        assert(da[0] == db[0]);
    } else {
        if b < 10 {
            lemma_decimal_len(a / 10);
            assert(da.len() >= 2);
            assert(db.len() == 1);
        } else {
            assert(da.last() == db.last());
            assert(da.drop_last() =~= decimal(a / 10));
            assert(db.drop_last() =~= decimal(b / 10));
            lemma_decimal_injective(a / 10, b / 10);
        }
    }
}

/// A numeral has at least one digit.
pub proof fn lemma_decimal_len(n: nat)
    ensures
        decimal(n).len() >= 1,
    decreases n,
{
    if n >= 10 {
        lemma_decimal_len(n / 10);
    }
}

/// A numeral holds no dot.
pub proof fn lemma_decimal_no_dot(n: nat, k: int)
    requires
        0 <= k < decimal(n).len(),
    ensures
        decimal(n)[k] != '.',
    decreases n,
{
    if n >= 10 {
        if k < decimal(n / 10).len() {
            lemma_decimal_no_dot(n / 10, k);
        }
    }
}

/// The name made of a seed and the numeral of an index.
pub open spec fn numbered(seed: Seq<char>, k: nat) -> Seq<char> {
    seed + decimal(k)
}

/// Distinct indices give distinct names.
pub proof fn lemma_numbered_injective(seed: Seq<char>, a: nat, b: nat)
    requires
        numbered(seed, a) == numbered(seed, b),
    ensures
        a == b,
{
    let x = numbered(seed, a);
    let y = numbered(seed, b);
    assert(x.subrange(seed.len() as int, x.len() as int) =~= decimal(a));
    assert(y.subrange(seed.len() as int, y.len() as int) =~= decimal(b));
    lemma_decimal_injective(a, b);
}

/// Whether `k` is the least positive index whose name is not taken.
pub open spec fn is_fresh_index(seed: Seq<char>, taken: Set<Seq<char>>, k: nat) -> bool {
    &&& k >= 1
    &&& !taken.contains(numbered(seed, k))
    &&& forall|j: nat| 1 <= j < k ==> taken.contains(#[trigger] numbered(seed, j))
}

/// The fresh name for a seed: the seed followed by the least positive index
/// that gives a name not taken.
pub open spec fn fresh_name(seed: Seq<char>, taken: Set<Seq<char>>) -> Seq<char> {
    numbered(seed, choose|k: nat| is_fresh_index(seed, taken, k))
}

/// The least free index is unique, so it is the one that names the fresh
/// name.
pub proof fn lemma_fresh_unique(seed: Seq<char>, taken: Set<Seq<char>>, k: nat)
    requires
        is_fresh_index(seed, taken, k),
    ensures
        fresh_name(seed, taken) == numbered(seed, k),
        !taken.contains(fresh_name(seed, taken)),
{
    let c = choose|c: nat| is_fresh_index(seed, taken, c);
    if c < k {
        assert(taken.contains(numbered(seed, c)));
    } else if k < c {
        assert(taken.contains(numbered(seed, k)));
    }
}

/// The names of the first `m` positive indices.
pub open spec fn first_numbered(seed: Seq<char>, m: nat) -> Set<Seq<char>>
    decreases m,
{
    if m == 0 {
        Set::empty()
    } else {
        first_numbered(seed, (m - 1) as nat).insert(numbered(seed, m))
    }
}

/// The first `m` names are `m` in number, and hold exactly the names of the
/// indices from 1 to `m`.
pub proof fn lemma_first_numbered(seed: Seq<char>, m: nat)
    ensures
        first_numbered(seed, m).finite(),
        first_numbered(seed, m).len() == m,
        forall|s: Seq<char>|
            first_numbered(seed, m).contains(s) <==> exists|j: nat|
                1 <= j <= m && s == #[trigger] numbered(seed, j),
    decreases m,
{
    if m > 0 {
        let prev = first_numbered(seed, (m - 1) as nat);
        lemma_first_numbered(seed, (m - 1) as nat);
        if prev.contains(numbered(seed, m)) {
            let j = choose|j: nat| 1 <= j <= m - 1 && numbered(seed, m) == numbered(seed, j);
            lemma_numbered_injective(seed, m, j);
        }
        assert forall|s: Seq<char>| first_numbered(seed, m).contains(s) implies exists|j: nat|
            1 <= j <= m && s == #[trigger] numbered(seed, j) by {
            if s == numbered(seed, m) {
            } else {
                let j = choose|j: nat| 1 <= j <= m - 1 && s == numbered(seed, j);
                assert(1 <= j <= m && s == numbered(seed, j));
            }
        }
    }
}

/// Among finitely many taken names, the names of the first `m` indices
/// cannot all be taken once `m` exceeds their number.
pub proof fn lemma_some_index_free(seed: Seq<char>, taken: Set<Seq<char>>, m: nat)
    requires
        taken.finite(),
        forall|j: nat| 1 <= j <= m ==> taken.contains(#[trigger] numbered(seed, j)),
    ensures
        m <= taken.len(),
{
    lemma_first_numbered(seed, m);
    let firsts = first_numbered(seed, m);
    assert(firsts.subset_of(taken));
    vstd::set_lib::lemma_len_subset(firsts, taken);
}

/// The string of one decimal digit.
fn digit_string(d: u128) -> (r: &'static str)
    requires
        d < 10,
    ensures
        r@ == seq![digit(d as nat)],
{
    proof {
        reveal_strlit("0");
        reveal_strlit("1");
        reveal_strlit("2");
        reveal_strlit("3");
        reveal_strlit("4");
        reveal_strlit("5");
        reveal_strlit("6");
        reveal_strlit("7");
        reveal_strlit("8");
        reveal_strlit("9");
    }
    let r = if d == 0 {
        "0"
    } else if d == 1 {
        "1"
    } else if d == 2 {
        "2"
    } else if d == 3 {
        "3"
    } else if d == 4 {
        "4"
    } else if d == 5 {
        "5"
    } else if d == 6 {
        "6"
    } else if d == 7 {
        "7"
    } else if d == 8 {
        "8"
    } else {
        "9"
    };
    assert(r@ =~= seq![digit(d as nat)]);
    r
}

/// Writes a number in decimal.
pub fn decimal_string(n: u128) -> (r: String)
    ensures
        r@ == decimal(n as nat),
    decreases n,
{
    if n < 10 {
        String::from_str(digit_string(n))
    } else {
        let mut s = decimal_string(n / 10);
        s.append(digit_string(n % 10));
        assert(s@ =~= decimal(n as nat));
        s
    }
}

/// Writes a signed number in decimal.
pub fn signed_decimal_string(n: i64) -> (r: String)
    ensures
        r@ == signed_decimal(n as int),
{
    if n < 0 {
        let mut s = String::from_str("-");
        proof {
            reveal_strlit("-");
        }
        let magnitude: u128 = if n == i64::MIN {
            9223372036854775808u128
        } else {
            (-n) as u128
        };
        let digits = decimal_string(magnitude);
        s.append(digits.as_str());
        assert(s@ =~= signed_decimal(n as int));
        s
    } else {
        decimal_string(n as u128)
    }
}

/// The set of the names in a list.
pub open spec fn name_set(taken: Seq<String>) -> Set<Seq<char>> {
    Set::new(|s: Seq<char>| exists|i: int| 0 <= i < taken.len() && #[trigger] taken[i]@ == s)
}

/// Whether a name occurs in a list.
pub fn contains_name(list: &Vec<String>, name: &String) -> (r: bool)
    ensures
        r == name_set(list@).contains(name@),
{
    let mut i: usize = 0;
    while i < list.len()
        invariant
            i <= list.len(),
            forall|j: int| 0 <= j < i ==> list[j]@ != name@,
        decreases list.len() - i,
    {
        if list[i] == *name {
            return true;
        }
        i += 1;
    }
    false
}

/// The names of a list are finitely many, at most as many as its length.
pub proof fn lemma_name_set_finite(taken: Seq<String>)
    ensures
        name_set(taken).finite(),
        name_set(taken).len() <= taken.len(),
    decreases taken.len(),
{
    if taken.len() == 0 {
        assert(name_set(taken) =~= Set::<Seq<char>>::empty());
    } else {
        let prev = taken.drop_last();
        lemma_name_set_finite(prev);
        assert forall|s: Seq<char>| name_set(taken).contains(s) <==> name_set(prev).insert(
            taken.last()@,
        ).contains(s) by {
            if name_set(taken).contains(s) {
                let i = choose|i: int| 0 <= i < taken.len() && #[trigger] taken[i]@ == s;
                if i < taken.len() - 1 {
                    assert(prev[i]@ == s);
                }
            }
            if name_set(prev).contains(s) {
                let i = choose|i: int| 0 <= i < prev.len() && #[trigger] prev[i]@ == s;
                assert(taken[i]@ == s);
            }
        }
        assert(name_set(taken) =~= name_set(prev).insert(taken.last()@));
    }
}

/// A name made of the seed and the least positive index that gives a name
/// not in `taken`.
pub fn fresh(seed: &str, taken: &Vec<String>) -> (name: String)
    ensures
        name@ == fresh_name(seed@, name_set(taken@)),
        !name_set(taken@).contains(name@),
{
    let ghost set = name_set(taken@);
    proof {
        lemma_name_set_finite(taken@);
    }
    let mut i: u128 = 1;
    loop
        invariant
            1 <= i <= taken.len() + 1,
            set == name_set(taken@),
            set.finite(),
            set.len() <= taken.len(),
            forall|j: nat| 1 <= j < i ==> set.contains(#[trigger] numbered(seed@, j)),
        decreases taken.len() + 1 - i,
    {
        let mut name = String::from_str(seed);
        let digits = decimal_string(i);
        name.append(digits.as_str());
        assert(name@ == numbered(seed@, i as nat));
        if !contains_name(taken, &name) {
            proof {
                lemma_fresh_unique(seed@, set, i as nat);
            }
            return name;
        }
        proof {
            lemma_some_index_free(seed@, set, i as nat);
        }
        i += 1;
    }
}

} // verus!
