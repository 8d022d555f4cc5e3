use vstd::prelude::*;
use vstd::string::StrSliceExecFns;
use vstd::string::StringExecFns;

verus! {

pub open spec fn is_digit(c: char) -> bool {
    '0' <= c && c <= '9'
}

pub open spec fn digit_value(c: char) -> int {
    (c as int) - ('0' as int)
}

pub open spec fn all_digits(s: Seq<char>) -> bool {
    forall|i: int| 0 <= i < s.len() ==> is_digit(#[trigger] s[i])
}

/// Value of a string of decimal digits, most significant first.
pub open spec fn digits_value(s: Seq<char>) -> int
    decreases s.len(),
{
    if s.len() == 0 {
        0
    } else {
        digits_value(s.drop_last()) * 10 + digit_value(s.last())
    }
}

/// What `str::parse::<i16>` gives for the text `s`: an optional sign (`+` or `-`)
/// followed by at least one ASCII digit, with a value in the range of `i16`.
pub open spec fn parse_i16_spec(s: Seq<char>) -> Option<i16> {
    let neg = s.len() > 0 && s[0] == '-';
    let body = if s.len() > 0 && (s[0] == '-' || s[0] == '+') {
        s.skip(1)
    } else {
        s
    };
    if body.len() == 0 || !all_digits(body) {
        None
    } else {
        let v = if neg {
            -digits_value(body)
        } else {
            digits_value(body)
        };
        if i16::MIN <= v <= i16::MAX {
            Some(v as i16)
        } else {
            None
        }
    }
}

/// Index of the first occurrence of `c` in `s`.
pub open spec fn first_index_of(s: Seq<char>, c: char) -> Option<int>
    decreases s.len(),
{
    if s.len() == 0 {
        None
    } else {
        match first_index_of(s.drop_last(), c) {
            Some(i) => Some(i),
            None => if s.last() == c {
                Some(s.len() - 1)
            } else {
                None
            },
        }
    }
}

/// The floor number that prefixes a layer name such as `"1/colliders"`: the
/// text before the first `/`, read as an `i16`.
pub open spec fn floor_prefix_spec(name: Seq<char>) -> Option<i16> {
    match first_index_of(name, '/') {
        Some(k) => parse_i16_spec(name.take(k)),
        None => None,
    }
}

/// `pat` occurs in `s` at position `i`.
pub open spec fn occurs_at(s: Seq<char>, pat: Seq<char>, i: int) -> bool {
    0 <= i && i + pat.len() <= s.len() && s.subrange(i, i + pat.len()) == pat
}

pub open spec fn digit_char(d: int) -> char {
    if d == 0 {
        '0'
    } else if d == 1 {
        '1'
    } else if d == 2 {
        '2'
    } else if d == 3 {
        '3'
    } else if d == 4 {
        '4'
    } else if d == 5 {
        '5'
    } else if d == 6 {
        '6'
    } else if d == 7 {
        '7'
    } else if d == 8 {
        '8'
    } else {
        '9'
    }
}

/// Decimal digits of a natural number, without leading zeros.
pub open spec fn nat_digits(n: nat) -> Seq<char>
    decreases n,
{
    if n < 10 {
        seq![digit_char(n as int)]
    } else {
        nat_digits(n / 10).push(digit_char((n % 10) as int))
    }
}

/// How `{}` formats an integer.
pub open spec fn decimal(v: int) -> Seq<char> {
    if v < 0 {
        seq!['-'] + nat_digits((-v) as nat)
    } else {
        nat_digits(v as nat)
    }
}

proof fn lemma_first_index_of_prefix(s: Seq<char>, c: char, i: int)
    requires
        0 <= i < s.len(),
        first_index_of(s.take(i), c) is None,
    ensures
        first_index_of(s.take(i + 1), c) == (if s[i] == c {
            Some(i)
        } else {
            None::<int>
        }),
{
    assert(s.take(i + 1).drop_last() =~= s.take(i));
}

proof fn lemma_first_index_of_found(s: Seq<char>, c: char, i: int, n: int)
    requires
        0 <= i < n <= s.len(),
        first_index_of(s.take(i + 1), c) == Some(i),
    ensures
        first_index_of(s.take(n), c) == Some(i),
    decreases n - i,
{
    if n > i + 1 {
        lemma_first_index_of_found(s, c, i, n - 1);
        assert(s.take(n).drop_last() =~= s.take(n - 1));
    }
}

proof fn lemma_first_index_of_facts(s: Seq<char>, c: char)
    ensures
        match first_index_of(s, c) {
            Some(i) => 0 <= i < s.len() && s[i] == c && forall|j: int| 0 <= j < i ==> s[j] != c,
            None => forall|j: int| 0 <= j < s.len() ==> s[j] != c,
        },
    decreases s.len(),
{
    if s.len() > 0 {
        lemma_first_index_of_facts(s.drop_last(), c);
        assert forall|j: int| 0 <= j < s.len() - 1 implies s.drop_last()[j] == s[j] by {}
    }
}

/// Character-wise equality of two strings.
pub fn str_eq(a: &str, b: &str) -> (r: bool)
    ensures
        r == (a@ == b@),
{
    let n = a.unicode_len();
    let m = b.unicode_len();
    if n != m {
        return false;
    }
    let mut i: usize = 0;
    while i < n
        invariant
            n == a@.len(),
            m == b@.len(),
            n == m,
            i <= n,
            forall|j: int| 0 <= j < i ==> a@[j] == b@[j],
        decreases n - i,
    {
        if a.get_char(i) != b.get_char(i) {
            return false;
        }
        i = i + 1;
    }
    assert(a@ =~= b@);
    true
}

/// Position of the first `c` in `s`.
pub fn find_char(s: &str, c: char) -> (r: Option<usize>)
    ensures
        match r {
            Some(i) => first_index_of(s@, c) == Some(i as int),
            None => first_index_of(s@, c) is None,
        },
{
    let n = s.unicode_len();
    let mut i: usize = 0;
    proof {
        assert(s@.take(0) =~= Seq::<char>::empty());
    }
    while i < n
        invariant
            n == s@.len(),
            i <= n,
            first_index_of(s@.take(i as int), c) is None,
        decreases n - i,
    {
        proof {
            lemma_first_index_of_prefix(s@, c, i as int);
        }
        if s.get_char(i) == c {
            proof {
                lemma_first_index_of_found(s@, c, i as int, n as int);
                assert(s@.take(n as int) =~= s@);
            }
            return Some(i);
        }
        i = i + 1;
    }
    assert(s@.take(n as int) =~= s@);
    None
}

/// Position of the first occurrence of `pat` in `s`.
pub fn find_str(s: &str, pat: &str) -> (r: Option<usize>)
    ensures
        match r {
            Some(i) => occurs_at(s@, pat@, i as int) && forall|j: int|
                0 <= j < i ==> !occurs_at(s@, pat@, j),
            None => forall|j: int| !occurs_at(s@, pat@, j),
        },
{
    let n = s.unicode_len();
    let m = pat.unicode_len();
    if m > n {
        return None;
    }
    let mut i: usize = 0;
    while i <= n - m
        invariant
            n == s@.len(),
            m == pat@.len(),
            m <= n,
            i <= n - m + 1,
            forall|j: int| 0 <= j < i ==> !occurs_at(s@, pat@, j),
        decreases n - m + 1 - i,
    {
        let mut k: usize = 0;
        let mut same = true;
        while k < m
            invariant
                n == s@.len(),
                m == pat@.len(),
                i + m <= n,
                k <= m,
                same == (forall|j: int| 0 <= j < k ==> s@[i + j] == pat@[j]),
            decreases m - k,
        {
            if s.get_char(i + k) != pat.get_char(k) {
                same = false;
            }
            k = k + 1;
        }
        if same {
            assert(s@.subrange(i as int, i + m) =~= pat@);
            return Some(i);
        }
        assert(!occurs_at(s@, pat@, i as int)) by {
            let j = choose|j: int| 0 <= j < m && s@[i + j] != pat@[j];
            if occurs_at(s@, pat@, i as int) {
                assert(s@.subrange(i as int, i + m)[j] == s@[i + j]);
            }
        }
        i = i + 1;
    }
    None
}

/// Reads `s` as `str::parse::<i16>` does.
pub fn parse_i16(s: &str) -> (r: Option<i16>)
    ensures
        r == parse_i16_spec(s@),
{
    let n = s.unicode_len();
    if n == 0 {
        return None;
    }
    let first = s.get_char(0);
    let neg = first == '-';
    let start: usize = if first == '-' || first == '+' {
        1
    } else {
        0
    };
    let ghost body = if first == '-' || first == '+' {
        s@.skip(1)
    } else {
        s@
    };
    if start == n {
        return None;
    }
    let mut acc: i64 = 0;
    let mut i: usize = start;
    proof {
        assert(body.take(0) =~= Seq::<char>::empty());
    }
    while i < n
        invariant
            n == s@.len(),
            start <= i <= n,
            start == 0 || start == 1,
            n > 0,
            first == s@[0],
            neg == (first == '-'),
            start == (if first == '-' || first == '+' { 1usize } else { 0usize }),
            body == (if first == '-' || first == '+' { s@.skip(1) } else { s@ }),
            body =~= s@.skip(start as int),
            all_digits(body.take(i - start)),
            0 <= acc <= 40000,
            acc == (if digits_value(body.take(i - start)) < 40000 {
                digits_value(body.take(i - start))
            } else {
                40000
            }),
        decreases n - i,
    {
        let c = s.get_char(i);
        if c < '0' || c > '9' {
            proof {
                assert(body[i - start] == s@[i as int]);
                assert(!is_digit(body[i - start]));
                assert(!all_digits(body));
                assert(body.len() > 0);
                assert(first == s@[0]);
                assert(body == (if s@.len() > 0 && (s@[0] == '-' || s@[0] == '+') {
                    s@.skip(1)
                } else {
                    s@
                }));
                assert(parse_i16_spec(s@) is None);
            }
            return None;
        }
        let d = (c as u32 - '0' as u32) as i64;
        proof {
            let t = body.take(i - start + 1);
            assert(t.drop_last() =~= body.take(i - start));
            assert(t.last() == c);
            assert(digits_value(body.take(i - start)) >= 0) by {
                lemma_digits_value_nonneg(body.take(i - start));
            }
        }
        acc = acc * 10 + d;
        if acc > 40000 {
            acc = 40000;
        }
        i = i + 1;
    }
    proof {
        assert(body.take(n - start) =~= body);
    }
    let v: i64 = if neg {
        -acc
    } else {
        acc
    };
    if v < -32768 || v > 32767 {
        None
    } else {
        Some(v as i16)
    }
}

pub proof fn lemma_digits_value_nonneg(s: Seq<char>)
    requires
        all_digits(s),
    ensures
        digits_value(s) >= 0,
    decreases s.len(),
{
    if s.len() > 0 {
        assert(all_digits(s.drop_last())) by {
            assert forall|i: int| 0 <= i < s.drop_last().len() implies is_digit(
                #[trigger] s.drop_last()[i],
            ) by {
                assert(s.drop_last()[i] == s[i]);
            }
        }
        lemma_digits_value_nonneg(s.drop_last());
        assert(is_digit(s[s.len() - 1]));
    }
}

proof fn lemma_digit_char(d: int)
    requires
        0 <= d < 10,
    ensures
        is_digit(digit_char(d)),
        digit_value(digit_char(d)) == d,
{
}

proof fn lemma_nat_digits(n: nat)
    ensures
        nat_digits(n).len() >= 1,
        all_digits(nat_digits(n)),
        digits_value(nat_digits(n)) == n,
    decreases n,
{
    let s = nat_digits(n);
    if n >= 10 {
        lemma_nat_digits(n / 10);
        lemma_digit_char((n % 10) as int);
        assert(s.drop_last() =~= nat_digits(n / 10));
        assert(s.last() == digit_char((n % 10) as int));
        assert(digits_value(s) == digits_value(nat_digits(n / 10)) * 10 + digit_value(
            digit_char((n % 10) as int),
        ));
        assert((n / 10) * 10 + n % 10 == n);
        assert forall|i: int| 0 <= i < s.len() implies is_digit(#[trigger] s[i]) by {
            if i < s.len() - 1 {
                assert(s[i] == nat_digits(n / 10)[i]);
            }
        }
    } else {
        lemma_digit_char(n as int);
        assert(s.drop_last() =~= Seq::<char>::empty());
        assert(digits_value(s.drop_last()) == 0);
        assert(s.last() == digit_char(n as int));
        assert(digits_value(s) == digits_value(s.drop_last()) * 10 + digit_value(s.last()));
    }
}

/// How `{}` writes a floor number reads back as that number, and holds no `/`.
proof fn lemma_decimal_reads_back(z: i16)
    ensures
        decimal(z as int).len() >= 1,
        forall|j: int| 0 <= j < decimal(z as int).len() ==> #[trigger] decimal(z as int)[j] != '/',
        parse_i16_spec(decimal(z as int)) == Some(z),
{
    let d = decimal(z as int);
    if z < 0 {
        let m: nat = (-(z as int)) as nat;
        lemma_nat_digits(m);
        let digits = nat_digits(m);
        assert(d.skip(1) =~= digits);
        assert forall|j: int| 0 <= j < d.len() implies #[trigger] d[j] != '/' by {
            if j > 0 {
                assert(d[j] == digits[j - 1]);
                assert(is_digit(digits[j - 1]));
            }
        }
    } else {
        let m: nat = z as nat;
        lemma_nat_digits(m);
        assert(is_digit(d[0]));
        assert forall|j: int| 0 <= j < d.len() implies #[trigger] d[j] != '/' by {
            assert(is_digit(d[j]));
        }
    }
}

/// A layer name made for floor `z` reads back as floor `z`, whatever
/// follows the `/`: `floor_prefix` undoes `floor_layer_name`.
pub proof fn lemma_floor_name_reads_back(z: i16, suffix: Seq<char>)
    ensures
        floor_prefix_spec(decimal(z as int) + seq!['/'] + suffix) == Some(z),
{
    let d = decimal(z as int);
    let name = d + seq!['/'] + suffix;
    lemma_decimal_reads_back(z);
    assert(name[d.len() as int] == '/');
    lemma_first_index_of_facts(name, '/');
    match first_index_of(name, '/') {
        Some(i) => {
            if i < d.len() {
                assert(name[i] == d[i]);
            }
        },
        None => {},
    }
    assert(name.take(d.len() as int) =~= d);
}

/// The floor number at the front of a layer name such as `"-1/roof"`.
pub fn floor_prefix(name: &str) -> (r: Option<i16>)
    ensures
        r == floor_prefix_spec(name@),
{
    match find_char(name, '/') {
        Some(k) => {
            proof {
                lemma_first_index_of_facts(name@, '/');
            }
            let head = name.substring_char(0, k);
            parse_i16(head)
        },
        None => None,
    }
}

fn digit_str(d: u32) -> (r: &'static str)
    requires
        d < 10,
    ensures
        r@ == seq![digit_char(d as int)],
{
    proof {
        reveal_strlit("0");
        reveal_strlit("1");
        reveal_strlit("2");
        reveal_strlit("3");
        reveal_strlit("4");
        reveal_strlit("5");
        reveal_strlit("6");
        reveal_strlit("7");
        reveal_strlit("8");
        reveal_strlit("9");
    }
    if d == 0 {
        "0"
    } else if d == 1 {
        "1"
    } else if d == 2 {
        "2"
    } else if d == 3 {
        "3"
    } else if d == 4 {
        "4"
    } else if d == 5 {
        "5"
    } else if d == 6 {
        "6"
    } else if d == 7 {
        "7"
    } else if d == 8 {
        "8"
    } else {
        "9"
    }
}

fn push_nat_digits(out: &mut String, n: u64)
    ensures
        final(out)@ == old(out)@ + nat_digits(n as nat),
    decreases n,
{
    if n >= 10 {
        push_nat_digits(out, n / 10);
    }
    out.append(digit_str((n % 10) as u32));
    proof {
        if n >= 10 {
            assert(nat_digits(n as nat) == nat_digits((n / 10) as nat).push(
                digit_char((n % 10) as int),
            ));
        }
    }
    assert(final(out)@ =~= old(out)@ + nat_digits(n as nat));
}

/// How `{}` writes the number `n`.
pub fn decimal_u64(n: u64) -> (r: String)
    ensures
        r@ == decimal(n as int),
{
    let mut out = String::new();
    push_nat_digits(&mut out, n);
    assert(out@ =~= decimal(n as int));
    out
}

/// The layer name `"{z}/{suffix}"`.
pub fn floor_layer_name(z: i16, suffix: &str) -> (r: String)
    ensures
        r@ == decimal(z as int) + seq!['/'] + suffix@,
{
    let mut out = String::new();
    if z < 0 {
        proof {
            reveal_strlit("-");
        }
        out.append("-");
        let m: i32 = -(z as i32);
        push_nat_digits(&mut out, m as u64);
    } else {
        push_nat_digits(&mut out, z as u64);
    }
    proof {
        reveal_strlit("/");
    }
    out.append("/");
    out.append(suffix);
    assert(out@ =~= decimal(z as int) + seq!['/'] + suffix@);
    out
}

} // verus!
