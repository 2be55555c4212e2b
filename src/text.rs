//! Decimal text for port numbers, comma-joined port lists, and UTF-8 helpers.
use vstd::prelude::*;
use vstd::utf8::*;

verus! {

/// The character of a decimal digit `d` in `0..10`.
pub open spec fn digit_char(d: nat) -> char {
    if d == 0 { '0' }
    else if d == 1 { '1' }
    else if d == 2 { '2' }
    else if d == 3 { '3' }
    else if d == 4 { '4' }
    else if d == 5 { '5' }
    else if d == 6 { '6' }
    else if d == 7 { '7' }
    else if d == 8 { '8' }
    else { '9' }
}

/// The value of a decimal digit character.
pub open spec fn digit_value(c: char) -> int {
    if c == '0' { 0 }
    else if c == '1' { 1 }
    else if c == '2' { 2 }
    else if c == '3' { 3 }
    else if c == '4' { 4 }
    else if c == '5' { 5 }
    else if c == '6' { 6 }
    else if c == '7' { 7 }
    else if c == '8' { 8 }
    else { 9 }
}

pub open spec fn is_digit(c: char) -> bool {
    c == '0' || c == '1' || c == '2' || c == '3' || c == '4' || c == '5' || c == '6' || c == '7'
        || c == '8' || c == '9'
}

/// Decimal digits of a natural number, most significant first, no leading zeros.
pub open spec fn nat_digits(n: nat) -> Seq<char>
    decreases n,
{
    if n < 10 {
        seq![digit_char(n)]
    } else {
        nat_digits(n / 10).push(digit_char(n % 10))
    }
}

/// The canonical decimal text of an integer, with a leading `-` when negative.
pub open spec fn decimal(n: int) -> Seq<char> {
    if n < 0 {
        seq!['-'] + nat_digits((-n) as nat)
    } else {
        nat_digits(n as nat)
    }
}

/// The value of a non-empty run of decimal digits.
pub open spec fn digits_value(s: Seq<char>) -> int
    decreases s.len(),
{
    if s.len() == 0 {
        0
    } else {
        digits_value(s.drop_last()) * 10 + digit_value(s.last())
    }
}

pub open spec fn all_digits(s: Seq<char>) -> bool {
    forall|i: int| 0 <= i < s.len() ==> is_digit(#[trigger] s[i])
}

/// A decimal `i32` as text: an optional sign, then at least one digit, in range.
pub open spec fn parse_i32_text(s: Seq<char>) -> Option<i32> {
    let neg = s.len() > 0 && s[0] == '-';
    let signed = s.len() > 0 && (s[0] == '-' || s[0] == '+');
    let body = if signed { s.drop_first() } else { s };
    let v = if neg { -digits_value(body) } else { digits_value(body) };
    if body.len() > 0 && all_digits(body) && i32::MIN <= v <= i32::MAX {
        Some(v as i32)
    } else {
        None
    }
}

/// A field of a port list: its number, or zero where it is not a decimal `i32`.
pub open spec fn port_or_zero(s: Seq<char>) -> i32 {
    match parse_i32_text(s) {
        Some(v) => v,
        None => 0,
    }
}

/// The decimal texts of `nums`, joined by `sep`.
pub open spec fn joined(nums: Seq<i32>, sep: Seq<char>) -> Seq<char>
    decreases nums.len(),
{
    if nums.len() == 0 {
        seq![]
    } else if nums.len() == 1 {
        decimal(nums[0] as int)
    } else {
        joined(nums.drop_last(), sep) + sep + decimal(nums.last() as int)
    }
}

/// The fields of `s` between occurrences of the one character `c`, built from
/// the right; a text without `c` is one field.
pub open spec fn split_char(s: Seq<char>, c: char) -> Seq<Seq<char>>
    decreases s.len(),
{
    if s.len() == 0 {
        seq![seq![]]
    } else {
        let p = split_char(s.drop_last(), c);
        if s.last() == c {
            p.push(seq![])
        } else {
            p.update(p.len() - 1, p.last().push(s.last()))
        }
    }
}

/// The fields of `s` from `start` on, scanning for `sep` from position `i`:
/// each leftmost occurrence ends a field, and the scan goes on after it.
pub open spec fn split_from(s: Seq<char>, sep: Seq<char>, start: int, i: int) -> Seq<Seq<char>>
    recommends
        sep.len() > 0,
    decreases s.len() - i,
    when sep.len() > 0
{
    if i + sep.len() > s.len() {
        seq![s.subrange(start, s.len() as int)]
    } else if s.subrange(i, i + sep.len()) == sep {
        seq![s.subrange(start, i)] + split_from(s, sep, i + sep.len(), i + sep.len())
    } else {
        split_from(s, sep, start, i + 1)
    }
}

/// The fields of `s` between occurrences of `sep`, as `str::split` gives them;
/// an empty separator stands between every two characters and at both ends.
pub open spec fn split_text(s: Seq<char>, sep: Seq<char>) -> Seq<Seq<char>> {
    if sep.len() == 0 {
        seq![seq![]] + s.map_values(|c: char| seq![c]) + seq![seq![]]
    } else {
        split_from(s, sep, 0, 0)
    }
}

pub open spec fn field_numbers(fields: Seq<Seq<char>>) -> Seq<i32> {
    fields.map_values(|f: Seq<char>| port_or_zero(f))
}

/// The numbers of a port list: nothing for an empty text, else one per field.
pub open spec fn split_nums_spec(s: Seq<char>, sep: Seq<char>) -> Seq<i32> {
    if s.len() == 0 {
        seq![]
    } else {
        field_numbers(split_text(s, sep))
    }
}

/// Byte sequence `hay` holds `needle` at position `i`.
pub open spec fn occurs_at(hay: Seq<u8>, needle: Seq<u8>, i: int) -> bool {
    0 <= i && i + needle.len() <= hay.len() && hay.subrange(i, i + needle.len()) == needle
}

/// Byte sequence `hay` holds `needle` somewhere.
pub open spec fn contains_bytes(hay: Seq<u8>, needle: Seq<u8>) -> bool {
    exists|i: int| occurs_at(hay, needle, i)
}

/// What `String::from_utf8_lossy` makes of bytes that are not valid UTF-8.
pub uninterp spec fn lossy_utf8(b: Seq<u8>) -> Seq<char>;

/// Bytes read as text: valid UTF-8 as it is, anything else with replacements.
pub open spec fn lossy_decode(b: Seq<u8>) -> Seq<char> {
    if valid_utf8(b) {
        decode_utf8(b)
    } else {
        lossy_utf8(b)
    }
}

/// Relies on `i32::to_string` (through `Display`): the canonical decimal form.
#[verifier::external_body]
fn i32_text(n: i32) -> (r: String)
    ensures
        r@ == decimal(n as int),
{
    n.to_string()
}

/// Relies on `str::parse::<i32>` (`i32::from_str`): an optional `+` or `-`, then
/// decimal digits, and no overflow; every other text is an error.
#[verifier::external_body]
fn parse_i32(s: &str) -> (r: Option<i32>)
    ensures
        r == parse_i32_text(s@),
{
    s.parse::<i32>().ok()
}

/// Relies on `String::from_utf8_lossy`: valid UTF-8 is decoded as it is, other
/// bytes are replaced.
#[verifier::external_body]
pub(crate) fn lossy_text(b: &[u8]) -> (r: String)
    ensures
        valid_utf8(b@) ==> r@ == decode_utf8(b@),
        !valid_utf8(b@) ==> r@ == lossy_utf8(b@),
{
    String::from_utf8_lossy(b).into_owned()
}

/// Relies on `std::str::from_utf8`: it succeeds exactly on valid UTF-8.
#[verifier::external_body]
pub(crate) fn utf8_text(b: &[u8]) -> (r: Option<String>)
    ensures
        r.is_some() <==> valid_utf8(b@),
        r.is_some() ==> r.unwrap()@ == decode_utf8(b@),
{
    std::str::from_utf8(b).ok().map(|s| s.to_string())
}

/// The text of `nums`, each in decimal, separated by `sep`.
pub fn join_nums(nums: &Vec<i32>, sep: &str) -> (r: String)
    ensures
        r@ == joined(nums@, sep@),
{
    let mut r = String::new();
    let mut i: usize = 0;
    while i < nums.len()
        invariant
            i <= nums.len(),
            r@ == joined(nums@.subrange(0, i as int), sep@),
        decreases nums.len() - i,
    {
        let piece = i32_text(nums[i]);
        if i > 0 {
            r.append(sep);
        }
        r.append(piece.as_str());
        proof {
            let s = nums@.subrange(0, i as int + 1);
            assert(s.drop_last() =~= nums@.subrange(0, i as int));
            if i == 0 {
                assert(r@ =~= joined(s, sep@));
            }
        }
        i = i + 1;
    }
    assert(nums@.subrange(0, nums.len() as int) =~= nums@);
    r
}

fn parse_or_zero(field: &str) -> (r: i32)
    ensures
        r == port_or_zero(field@),
{
    match parse_i32(field) {
        Some(x) => x,
        None => 0,
    }
}

fn sep_at(s: &str, sep: &str, i: usize, n: usize, m: usize) -> (r: bool)
    requires
        n == s@.len(),
        m == sep@.len(),
        i + m <= n,
    ensures
        r == (s@.subrange(i as int, i + m) == sep@),
{
    let mut j: usize = 0;
    while j < m
        invariant
            j <= m,
            i + m <= n,
            n == s@.len(),
            m == sep@.len(),
            forall|k: int| 0 <= k < j ==> s@[i + k] == sep@[k],
        decreases m - j,
    {
        if s.get_char(i + j) != sep.get_char(j) {
            proof {
                assert(s@.subrange(i as int, i + m)[j as int] != sep@[j as int]);
            }
            return false;
        }
        j = j + 1;
    }
    assert(s@.subrange(i as int, i + m) =~= sep@);
    true
}

/// The numbers in `str`, split at `sep`; a field that is not a decimal `i32`
/// becomes zero, and an empty text gives no numbers.
pub fn split_nums(str: &str, sep: &str) -> (r: Vec<i32>)
    ensures
        r@ == split_nums_spec(str@, sep@),
{
    let n = str.unicode_len();
    if n == 0 {
        return vec![];
    }
    let m = sep.unicode_len();
    let ghost s = str@;
    let mut out: Vec<i32> = Vec::new();
    if m == 0 {
        out.push(0);
        let mut i: usize = 0;
        while i < n
            invariant
                i <= n,
                n == s.len(),
                s == str@,
                out@ == seq![0i32] + field_numbers(s.subrange(0, i as int).map_values(
                    |c: char| seq![c],
                )),
            decreases n - i,
        {
            let field = str.substring_char(i, i + 1);
            out.push(parse_or_zero(field));
            proof {
                assert(field@ =~= seq![s[i as int]]);
                assert(s.subrange(0, i + 1).map_values(|c: char| seq![c]) =~= s.subrange(
                    0,
                    i as int,
                ).map_values(|c: char| seq![c]).push(seq![s[i as int]]));
                assert(out@ =~= seq![0i32] + field_numbers(
                    s.subrange(0, i + 1).map_values(|c: char| seq![c]),
                ));
            }
            i = i + 1;
        }
        out.push(0);
        proof {
            assert(s.subrange(0, n as int) =~= s);
            let e = Seq::<char>::empty();
            assert(port_or_zero(e) == 0);
            assert(out@ =~= field_numbers(
                seq![e] + s.map_values(|c: char| seq![c]) + seq![e],
            ));
        }
        return out;
    }
    let mut start: usize = 0;
    let mut i: usize = 0;
    while m <= n - i
        invariant
            0 < m,
            m == sep@.len(),
            n == s.len(),
            s == str@,
            start <= i <= n,
            field_numbers(split_from(s, sep@, 0, 0)) == out@ + field_numbers(
                split_from(s, sep@, start as int, i as int),
            ),
        decreases n - i,
    {
        if sep_at(str, sep, i, n, m) {
            let field = str.substring_char(start, i);
            let v = parse_or_zero(field);
            let ghost rest = split_from(s, sep@, (i + m) as int, (i + m) as int);
            proof {
                assert(field_numbers(seq![field@] + rest) =~= seq![v] + field_numbers(rest));
                assert(out@ + (seq![v] + field_numbers(rest)) =~= out@.push(v) + field_numbers(
                    rest,
                ));
            }
            out.push(v);
            i = i + m;
            start = i;
        } else {
            i = i + 1;
        }
    }
    let field = str.substring_char(start, n);
    let v = parse_or_zero(field);
    proof {
        assert(field_numbers(seq![field@]) =~= seq![v]);
    }
    out.push(v);
    out
}

/// Whether `needle` occurs in `hay`, byte for byte.
pub fn bytes_contain(hay: &[u8], needle: &[u8]) -> (r: bool)
    ensures
        r == contains_bytes(hay@, needle@),
{
    let h = hay.len();
    let m = needle.len();
    if m > h {
        proof {
            assert forall|i: int| !occurs_at(hay@, needle@, i) by {}
        }
        return false;
    }
    let mut i: usize = 0;
    while i <= h - m
        invariant
            m <= h,
            h == hay@.len(),
            m == needle@.len(),
            i <= h - m + 1,
            forall|k: int| 0 <= k < i ==> !occurs_at(hay@, needle@, k),
        decreases h - m + 1 - i,
    {
        let mut j: usize = 0;
        let mut same = true;
        while j < m
            invariant
                i + m <= h,
                h == hay@.len(),
                m == needle@.len(),
                j <= m,
                same == (forall|k: int| 0 <= k < j ==> hay@[i + k] == needle@[k]),
            decreases m - j,
        {
            if hay[i + j] != needle[j] {
                same = false;
            }
            j = j + 1;
        }
        if same {
            proof {
                assert(hay@.subrange(i as int, i + m) =~= needle@);
                assert(occurs_at(hay@, needle@, i as int));
            }
            return true;
        }
        proof {
            if hay@.subrange(i as int, i + m) == needle@ {
                assert forall|k: int| 0 <= k < m implies hay@[i + k] == needle@[k] by {
                    assert(hay@.subrange(i as int, i + m)[k] == hay@[i + k]);
                }
            }
        }
        i = i + 1;
    }
    proof {
        assert forall|k: int| !occurs_at(hay@, needle@, k) by {
            if occurs_at(hay@, needle@, k) {
                assert(0 <= k < i);
            }
        }
    }
    false
}

proof fn lemma_digit_char(d: nat)
    requires
        d < 10,
    ensures
        is_digit(digit_char(d)),
        digit_value(digit_char(d)) == d,
{
}

proof fn lemma_nat_digits(n: nat)
    ensures
        nat_digits(n).len() > 0,
        all_digits(nat_digits(n)),
        digits_value(nat_digits(n)) == n,
    decreases n,
{
    if n < 10 {
        lemma_digit_char(n);
        assert(seq![digit_char(n)].drop_last() =~= Seq::<char>::empty());
        assert(digits_value(Seq::<char>::empty()) == 0);
    } else {
        lemma_nat_digits(n / 10);
        lemma_digit_char(n % 10);
        let s = nat_digits(n);
        assert(s.drop_last() =~= nat_digits(n / 10));
        assert(digits_value(s) == digits_value(nat_digits(n / 10)) * 10 + digit_value(
            digit_char(n % 10),
        ));
        assert((n / 10) * 10 + n % 10 == n);
        assert forall|i: int| 0 <= i < s.len() implies is_digit(#[trigger] s[i]) by {
            if i < s.len() - 1 {
                assert(s[i] == nat_digits(n / 10)[i]);
            }
        }
    }
}

/// Every decimal text is made of digits after its optional `-`, and never empty.
pub proof fn lemma_decimal_shape(n: int)
    ensures
        decimal(n).len() > 0,
        forall|i: int| 0 <= i < decimal(n).len() ==> #[trigger] decimal(n)[i] != ',',
{
    if n < 0 {
        lemma_nat_digits((-n) as nat);
        let d = nat_digits((-n) as nat);
        assert forall|i: int| 0 <= i < decimal(n).len() implies #[trigger] decimal(n)[i] != ',' by {
            if i > 0 {
                assert(decimal(n)[i] == d[i - 1]);
                assert(is_digit(d[i - 1]));
            }
        }
    } else {
        lemma_nat_digits(n as nat);
        let d = nat_digits(n as nat);
        assert forall|i: int| 0 <= i < decimal(n).len() implies #[trigger] decimal(n)[i] != ',' by {
            assert(is_digit(d[i]));
        }
    }
}

/// Reading back the decimal text of an `i32` gives the same `i32`.
pub proof fn lemma_parse_decimal(n: i32)
    ensures
        parse_i32_text(decimal(n as int)) == Some(n),
{
    let s = decimal(n as int);
    if n < 0 {
        let d = nat_digits((-n) as nat);
        lemma_nat_digits((-n) as nat);
        assert(s.drop_first() =~= d);
    } else {
        let d = nat_digits(n as nat);
        lemma_nat_digits(n as nat);
        assert(is_digit(d[0]));
    }
}

proof fn lemma_split_extend(x: Seq<char>, d: Seq<char>, c: char)
    requires
        forall|i: int| 0 <= i < d.len() ==> d[i] != c,
    ensures
        split_char(x + d, c) == split_char(x, c).update(
            split_char(x, c).len() - 1,
            split_char(x, c).last() + d,
        ),
        split_char(x, c).len() > 0,
    decreases d.len(),
{
    lemma_split_len(x, c);
    let p = split_char(x, c);
    if d.len() == 0 {
        assert(x + d =~= x);
        assert(p.last() + d =~= p.last());
        assert(p.update(p.len() - 1, p.last()) =~= p);
    } else {
        let d0 = d.drop_last();
        lemma_split_extend(x, d0, c);
        assert((x + d).drop_last() =~= x + d0);
        assert((x + d).last() == d.last());
        assert((p.last() + d0).push(d.last()) =~= p.last() + d);
        let q = split_char(x + d0, c);
        assert(q.update(q.len() - 1, q.last().push(d.last())) =~= p.update(
            p.len() - 1,
            p.last() + d,
        ));
    }
}

proof fn lemma_split_len(x: Seq<char>, c: char)
    ensures
        split_char(x, c).len() > 0,
    decreases x.len(),
{
    if x.len() > 0 {
        lemma_split_len(x.drop_last(), c);
    }
}

/// Splitting a non-empty joined list at its separator gives back each number's text.
pub proof fn lemma_split_joined(nums: Seq<i32>)
    requires
        nums.len() > 0,
    ensures
        split_char(joined(nums, seq![',']), ',') == nums.map_values(|n: i32| decimal(n as int)),
    decreases nums.len(),
{
    let sep = seq![','];
    let last = decimal(nums.last() as int);
    lemma_decimal_shape(nums.last() as int);
    if nums.len() == 1 {
        lemma_split_extend(seq![], last, ',');
        assert(Seq::<char>::empty() + last =~= last);
        assert(Seq::<char>::empty() + last =~= joined(nums, sep));
        assert(split_char(Seq::<char>::empty(), ',').update(0, Seq::<char>::empty() + last)
            =~= nums.map_values(|n: i32| decimal(n as int)));
    } else {
        let init = nums.drop_last();
        lemma_split_joined(init);
        let j = joined(init, sep);
        lemma_split_extend(j + sep, last, ',');
        assert((j + sep).drop_last() =~= j);
        let p = split_char(j, ',');
        assert(split_char(j + sep, ',') == p.push(seq![]));
        assert(j + sep + last == joined(nums, sep));
        assert(p.push(seq![]).update(p.len() as int, Seq::<char>::empty() + last)
            =~= nums.map_values(|n: i32| decimal(n as int)));
    }
}

/// Splitting the comma-joined text of a port list gives back the same list.
pub proof fn lemma_split_nums_joined(nums: Seq<i32>)
    ensures
        split_nums_spec(joined(nums, seq![',']), seq![',']) == nums,
{
    if nums.len() > 0 {
        lemma_split_joined(nums);
        let j = joined(nums, seq![',']);
        lemma_joined_nonempty(nums);
        lemma_split_from_char(j, ',', 0, 0);
        assert(j.subrange(0, j.len() as int) =~= j);
        let fields = split_char(j, ',');
        let vals = fields.map_values(|f: Seq<char>| port_or_zero(f));
        assert forall|i: int| 0 <= i < nums.len() implies #[trigger] vals[i] == nums[i] by {
            assert(fields[i] == decimal(nums[i] as int));
            lemma_parse_decimal(nums[i]);
        }
        assert(vals =~= nums);
    }
}

proof fn lemma_split_after_sep(a: Seq<char>, b: Seq<char>, c: char)
    requires
        forall|k: int| 0 <= k < a.len() ==> a[k] != c,
    ensures
        split_char(a + seq![c] + b, c) == seq![a] + split_char(b, c),
    decreases b.len(),
{
    if b.len() == 0 {
        lemma_split_extend(seq![], a, c);
        assert(Seq::<char>::empty() + a =~= a);
        assert(a + seq![c] + b =~= a.push(c));
        assert((a + seq![c] + b).drop_last() =~= a);
        assert(split_char(Seq::<char>::empty(), c).update(0, Seq::<char>::empty() + a) =~= seq![a]);
        assert(seq![a].push(seq![]) =~= seq![a] + split_char(b, c));
    } else {
        let b0 = b.drop_last();
        lemma_split_after_sep(a, b0, c);
        lemma_split_len(b0, c);
        assert((a + seq![c] + b).drop_last() =~= a + seq![c] + b0);
        assert((a + seq![c] + b).last() == b.last());
        let p = split_char(b0, c);
        if b.last() == c {
            assert((seq![a] + p).push(seq![]) =~= seq![a] + p.push(seq![]));
        } else {
            assert((seq![a] + p).update(p.len() as int, p.last().push(b.last())) =~= seq![a]
                + p.update(p.len() - 1, p.last().push(b.last())));
        }
    }
}

/// With a one-character separator, scanning from the left splits as
/// `split_char` does.
proof fn lemma_split_from_char(s: Seq<char>, c: char, start: int, i: int)
    requires
        0 <= start <= i <= s.len(),
        forall|k: int| start <= k < i ==> s[k] != c,
    ensures
        split_from(s, seq![c], start, i) == split_char(s.subrange(start, s.len() as int), c),
    decreases s.len() - i,
{
    let sep = seq![c];
    let tail = s.subrange(start, s.len() as int);
    if i + 1 > s.len() {
        lemma_split_extend(seq![], tail, c);
        assert(Seq::<char>::empty() + tail =~= tail);
        assert(split_char(Seq::<char>::empty(), c).update(0, Seq::<char>::empty() + tail) =~= seq![tail]);
    } else if s.subrange(i, i + 1) == sep {
        assert(s[i] == s.subrange(i, i + 1)[0]);
        lemma_split_from_char(s, c, i + 1, i + 1);
        let a = s.subrange(start, i);
        let b = s.subrange(i + 1, s.len() as int);
        lemma_split_after_sep(a, b, c);
        assert(a + seq![c] + b =~= tail);
    } else {
        assert(s.subrange(i, i + 1) =~= seq![s[i]]);
        lemma_split_from_char(s, c, start, i + 1);
    }
}

proof fn lemma_joined_nonempty(nums: Seq<i32>)
    requires
        nums.len() > 0,
    ensures
        joined(nums, seq![',']).len() > 0,
{
    lemma_decimal_shape(nums.last() as int);
}

} // verus!
