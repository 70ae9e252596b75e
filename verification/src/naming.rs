//! Names in the shard index: shard URLs, tar entry paths and the class keys they carry.

use vstd::prelude::*;

use crate::lexical::char_vec;

verus! {

/// Everything of a shard's URL before the split name ("train" or "validation").
pub const SHARD_URL_STEM: &'static str =
    "https://huggingface.co/datasets/timm/imagenet-1k-wds/resolve/main/imagenet1k-";

/// Width to which a shard number is padded with leading zeros.
pub const SHARD_NUMBER_WIDTH: usize = 4;

// ---------------------------------------------------------------------------------------
// Shard URLs
// ---------------------------------------------------------------------------------------

/// The character of a decimal digit.
pub open spec fn digit_char(d: nat) -> char {
    seq!['0', '1', '2', '3', '4', '5', '6', '7', '8', '9'][d as int]
}

/// Decimal notation of `n`, without leading zeros (`0` is written "0").
pub open spec fn decimal(n: nat) -> Seq<char>
    decreases n,
{
    if n < 10 {
        seq![digit_char(n)]
    } else {
        decimal(n / 10).push(digit_char(n % 10))
    }
}

/// `s` with zeros put in front until it is at least `width` characters long.
pub open spec fn zero_padded(s: Seq<char>, width: nat) -> Seq<char> {
    if s.len() >= width {
        s
    } else {
        Seq::new((width - s.len()) as nat, |_i: int| '0') + s
    }
}

/// The URL of shard number `shard_idx` of the split `prefix`.
pub open spec fn shard_url_of(prefix: Seq<char>, shard_idx: nat) -> Seq<char> {
    SHARD_URL_STEM@ + prefix + "-"@ + zero_padded(decimal(shard_idx), SHARD_NUMBER_WIDTH as nat)
        + ".tar"@
}

/// The characters of a sequence of digit values.
pub open spec fn digit_text(digits: Seq<u8>) -> Seq<char> {
    digits.map_values(|d: u8| digit_char(d as nat))
}

/// The digits of `n` in decimal notation, most significant first, as values 0 to 9.
fn decimal_digits(n: usize) -> (digits: Vec<u8>)
    ensures
        digit_text(digits@) == decimal(n as nat),
        forall|i: int| 0 <= i < digits@.len() ==> digits@[i] < 10,
{
    let mut m: usize = n;
    let mut tail: Vec<u8> = Vec::new();
    while m >= 10
        invariant
            decimal(n as nat) == decimal(m as nat) + tail@.map_values(|d: u8| digit_char(d as nat)),
            forall|i: int| 0 <= i < tail@.len() ==> tail@[i] < 10,
        decreases m,
    {
        let d: u8 = (m % 10) as u8;
        let ghost old_tail = tail@;
        tail.insert(0, d);
        proof {
            assert(tail@.map_values(|d: u8| digit_char(d as nat)) =~= seq![digit_char(d as nat)]
                + old_tail.map_values(|d: u8| digit_char(d as nat)));
            assert(decimal(m as nat) == decimal((m / 10) as nat).push(digit_char((m % 10) as nat)));
        }
        m = m / 10;
    }
    let ghost old_tail = tail@;
    tail.insert(0, m as u8);
    proof {
        assert(tail@.map_values(|d: u8| digit_char(d as nat)) =~= seq![digit_char(m as nat)]
            + old_tail.map_values(|d: u8| digit_char(d as nat)));
        assert(decimal(n as nat) =~= tail@.map_values(|d: u8| digit_char(d as nat)));
    }
    tail
}

/// The URL of shard number `shard_idx` of the split `prefix` in the ImageNet WebDataset
/// on Hugging Face, the shard number written with at least four digits.
pub fn shard_url(prefix: &str, shard_idx: usize) -> (url: String)
    ensures
        url@ == shard_url_of(prefix@, shard_idx as nat),
{
    let digits = decimal_digits(shard_idx);
    let mut url = String::from_str(SHARD_URL_STEM);
    url.append(prefix);
    url.append("-");
    let ghost head = url@;
    let mut k: usize = digits.len();
    while k < SHARD_NUMBER_WIDTH
        invariant
            digits.len() <= k <= SHARD_NUMBER_WIDTH || k == digits.len(),
            url@ == head + Seq::new((k - digits.len()) as nat, |_i: int| '0'),
            digit_text(digits@) == decimal(shard_idx as nat),
            forall|i: int| 0 <= i < digits@.len() ==> digits@[i] < 10,
        decreases SHARD_NUMBER_WIDTH - k,
    {
        url.append("0");
        proof {
            reveal_strlit("0");
            assert("0"@ =~= seq!['0']);
            assert(url@ =~= head + Seq::new((k + 1 - digits.len()) as nat, |_i: int| '0'));
        }
        k = k + 1;
    }
    let ghost padded = url@;
    let mut j: usize = 0;
    while j < digits.len()
        invariant
            0 <= j <= digits.len(),
            digit_text(digits@) == decimal(shard_idx as nat),
            forall|i: int| 0 <= i < digits@.len() ==> digits@[i] < 10,
            url@ == padded + decimal(shard_idx as nat).take(j as int),
        decreases digits.len() - j,
    {
        let d: usize = digits[j] as usize;
        proof {
            reveal_strlit("0123456789");
            assert("0123456789"@ =~= seq!['0', '1', '2', '3', '4', '5', '6', '7', '8', '9']);
        }
        let one = "0123456789".substring_char(d, d + 1);
        url.append(one);
        proof {
            assert(one@ =~= seq![digit_char(d as nat)]);
            assert(decimal(shard_idx as nat)[j as int] == digit_char(d as nat));
            assert(decimal(shard_idx as nat).take(j + 1) =~= decimal(shard_idx as nat).take(
                j as int,
            ).push(decimal(shard_idx as nat)[j as int]));
            assert(url@ =~= padded + decimal(shard_idx as nat).take(j + 1));
        }
        j = j + 1;
    }
    url.append(".tar");
    proof {
        assert(decimal(shard_idx as nat).take(j as int) =~= decimal(shard_idx as nat));
        assert(zero_padded(decimal(shard_idx as nat), SHARD_NUMBER_WIDTH as nat) =~= Seq::new(
            (k - digits.len()) as nat,
            |_i: int| '0',
        ) + decimal(shard_idx as nat));
    }
    url
}

/// The value of a decimal digit character (0 for any other character).
pub open spec fn digit_value(c: char) -> nat {
    if c == '1' {
        1
    } else if c == '2' {
        2
    } else if c == '3' {
        3
    } else if c == '4' {
        4
    } else if c == '5' {
        5
    } else if c == '6' {
        6
    } else if c == '7' {
        7
    } else if c == '8' {
        8
    } else if c == '9' {
        9
    } else {
        0
    }
}

/// The number that a string of decimal digits denotes.
pub open spec fn digits_value(s: Seq<char>) -> nat
    decreases s.len(),
{
    if s.len() == 0 {
        0
    } else {
        digits_value(s.drop_last()) * 10 + digit_value(s.last())
    }
}

proof fn lemma_digit_roundtrip(d: nat)
    requires
        d < 10,
    ensures
        digit_value(digit_char(d)) == d,
{
    let ds = seq!['0', '1', '2', '3', '4', '5', '6', '7', '8', '9'];
    assert(digit_char(d) == ds[d as int]);
    if d == 0 {
    } else if d == 1 {
    } else if d == 2 {
    } else if d == 3 {
    } else if d == 4 {
    } else if d == 5 {
    } else if d == 6 {
    } else if d == 7 {
    } else if d == 8 {
    } else {
        assert(d == 9);
    }
}

proof fn lemma_decimal_value(n: nat)
    ensures
        digits_value(decimal(n)) == n,
    decreases n,
{
    if n < 10 {
        lemma_digit_roundtrip(n);
        assert(decimal(n).drop_last() =~= Seq::<char>::empty());
        assert(decimal(n).last() == digit_char(n));
        assert(digits_value(Seq::<char>::empty()) == 0);
        assert(digits_value(decimal(n)) == digits_value(decimal(n).drop_last()) * 10 + digit_value(
            decimal(n).last(),
        ));
    } else {
        lemma_decimal_value(n / 10);
        lemma_digit_roundtrip(n % 10);
        assert(decimal(n).drop_last() =~= decimal(n / 10));
        assert(decimal(n).last() == digit_char(n % 10));
        assert((n / 10) * 10 + n % 10 == n);
        assert(digits_value(decimal(n)) == digits_value(decimal(n).drop_last()) * 10 + digit_value(
            decimal(n).last(),
        ));
    }
}

proof fn lemma_leading_zeros_value(k: nat, s: Seq<char>)
    ensures
        digits_value(Seq::new(k, |_i: int| '0') + s) == digits_value(s),
    decreases s.len(), k,
{
    let zeros = Seq::new(k, |_i: int| '0');
    if s.len() == 0 {
        assert(zeros + s =~= zeros);
        if k > 0 {
            assert(zeros.drop_last() =~= Seq::new((k - 1) as nat, |_i: int| '0') + s);
            lemma_leading_zeros_value((k - 1) as nat, s);
        }
    } else {
        assert((zeros + s).drop_last() =~= zeros + s.drop_last());
        lemma_leading_zeros_value(k, s.drop_last());
    }
}

/// The padded shard number still denotes the shard number.
pub proof fn lemma_padded_number_value(n: nat, width: nat)
    ensures
        digits_value(zero_padded(decimal(n), width)) == n,
{
    lemma_decimal_value(n);
    if decimal(n).len() < width {
        lemma_leading_zeros_value((width - decimal(n).len()) as nat, decimal(n));
    }
}

/// Distinct shards of a split have distinct URLs, so an entry's URL names its shard.
pub proof fn lemma_shard_urls_distinct(prefix: Seq<char>, a: nat, b: nat)
    requires
        a != b,
    ensures
        shard_url_of(prefix, a) != shard_url_of(prefix, b),
{
    let head = SHARD_URL_STEM@ + prefix + "-"@;
    let pa = zero_padded(decimal(a), SHARD_NUMBER_WIDTH as nat);
    let pb = zero_padded(decimal(b), SHARD_NUMBER_WIDTH as nat);
    let tail = ".tar"@;
    lemma_padded_number_value(a, SHARD_NUMBER_WIDTH as nat);
    lemma_padded_number_value(b, SHARD_NUMBER_WIDTH as nat);
    if shard_url_of(prefix, a) == shard_url_of(prefix, b) {
        let u = shard_url_of(prefix, a);
        assert(u =~= head + pa + tail);
        assert(u =~= head + pb + tail);
        assert(pa.len() == pb.len());
        assert(pa =~= u.subrange(head.len() as int, (head.len() + pa.len()) as int));
        assert(pb =~= u.subrange(head.len() as int, (head.len() + pb.len()) as int));
    }
}

/// Every character of a decimal notation is a digit, and there is at least one.
pub proof fn lemma_decimal_is_digits(n: nat)
    ensures
        decimal(n).len() >= 1,
        forall|i: int| 0 <= i < decimal(n).len() ==> '0' <= #[trigger] decimal(n)[i] <= '9',
    decreases n,
{
    let ds = seq!['0', '1', '2', '3', '4', '5', '6', '7', '8', '9'];
    assert forall|d: nat| d < 10 implies '0' <= #[trigger] digit_char(d) <= '9' by {
        assert(digit_char(d) == ds[d as int]);
    }
    if n >= 10 {
        lemma_decimal_is_digits(n / 10);
        assert(digit_char(n % 10) == decimal(n).last());
    }
}

/// A decimal notation has no leading zero, unless it is the single digit "0".
pub proof fn lemma_decimal_no_leading_zero(n: nat)
    ensures
        decimal(n).len() > 1 ==> decimal(n)[0] != '0',
        n > 0 ==> decimal(n)[0] != '0',
    decreases n,
{
    let ds = seq!['0', '1', '2', '3', '4', '5', '6', '7', '8', '9'];
    if n < 10 {
        assert(decimal(n)[0] == ds[n as int]);
    } else {
        lemma_decimal_no_leading_zero(n / 10);
        lemma_decimal_is_digits(n / 10);
        assert(decimal(n)[0] == decimal(n / 10)[0]);
    }
}

/// Numbers below ten thousand take at most four digits.
pub proof fn lemma_decimal_at_most_four(n: nat)
    requires
        n < 10000,
    ensures
        decimal(n).len() <= 4,
{
    let n1 = n / 10;
    let n2 = n1 / 10;
    let n3 = n2 / 10;
    if n2 >= 10 {
        assert(n3 < 10);
        assert(decimal(n3).len() == 1);
        assert(decimal(n2).len() == decimal(n3).len() + 1);
    }
    if n1 >= 10 {
        assert(decimal(n1).len() == decimal(n2).len() + 1);
    }
    if n >= 10 {
        assert(decimal(n).len() == decimal(n1).len() + 1);
    }
}

/// The shard number part of a URL (between the split's "-" and ".tar").
pub open spec fn shard_number_text(prefix: Seq<char>, shard_idx: nat) -> Seq<char> {
    let u = shard_url_of(prefix, shard_idx);
    let head = SHARD_URL_STEM@ + prefix + "-"@;
    u.subrange(head.len() as int, u.len() - 4)
}

/// A shard's URL is the stem, the split name, "-", the shard number and ".tar"; the shard
/// number is written in decimal digits, at least four of them: exactly four below ten
/// thousand (leading zeros filling in), and above that with no leading zero.
pub proof fn lemma_shard_url_layout(prefix: Seq<char>, shard_idx: nat)
    ensures
        ({
            let u = shard_url_of(prefix, shard_idx);
            let head = SHARD_URL_STEM@ + prefix + "-"@;
            let number = shard_number_text(prefix, shard_idx);
            &&& u == head + number + ".tar"@
            &&& number.len() >= 4
            &&& shard_idx < 10000 ==> number.len() == 4
            &&& number.len() > 4 ==> number[0] != '0'
            &&& forall|i: int| 0 <= i < number.len() ==> '0' <= #[trigger] number[i] <= '9'
            &&& digits_value(number) == shard_idx
        }),
{
    reveal_strlit(".tar");
    let u = shard_url_of(prefix, shard_idx);
    let head = SHARD_URL_STEM@ + prefix + "-"@;
    let d = decimal(shard_idx);
    let padded = zero_padded(d, SHARD_NUMBER_WIDTH as nat);
    assert(".tar"@.len() == 4);
    assert(u =~= head + padded + ".tar"@);
    assert(shard_number_text(prefix, shard_idx) =~= padded);
    lemma_decimal_is_digits(shard_idx);
    lemma_decimal_no_leading_zero(shard_idx);
    lemma_padded_number_value(shard_idx, SHARD_NUMBER_WIDTH as nat);
    if shard_idx < 10000 {
        lemma_decimal_at_most_four(shard_idx);
    }
    if d.len() < 4 {
        let zeros = Seq::new((4 - d.len()) as nat, |_i: int| '0');
        assert(padded =~= zeros + d);
        assert forall|i: int| 0 <= i < padded.len() implies '0' <= #[trigger] padded[i] <= '9' by {
            if i >= zeros.len() {
                assert(padded[i] == d[i - zeros.len()]);
            }
        }
    } else {
        assert(padded == d);
    }
}

// ---------------------------------------------------------------------------------------
// Tar entry paths
// ---------------------------------------------------------------------------------------

/// `s` ends with `suffix`.
pub open spec fn ends_with(s: Seq<char>, suffix: Seq<char>) -> bool {
    suffix.len() <= s.len() && s.subrange(s.len() - suffix.len(), s.len() as int) == suffix
}

/// The entry path names an image: it ends in ".jpg", ".jpeg", ".png" or ".JPEG".
pub open spec fn is_image_path(path: Seq<char>) -> bool {
    ||| ends_with(path, ".jpg"@)
    ||| ends_with(path, ".jpeg"@)
    ||| ends_with(path, ".png"@)
    ||| ends_with(path, ".JPEG"@)
}

/// The index just after the last '/' of `p`, or 0 where `p` has none.
pub open spec fn after_last_slash(p: Seq<char>) -> nat
    decreases p.len(),
{
    if p.len() == 0 {
        0
    } else if p.last() == '/' {
        p.len()
    } else {
        after_last_slash(p.drop_last())
    }
}

/// `after_last_slash` stays within the sequence.
pub proof fn lemma_after_last_slash_bound(p: Seq<char>)
    ensures
        after_last_slash(p) <= p.len(),
        p.len() > 0 && p.last() != '/' ==> after_last_slash(p) < p.len(),
    decreases p.len(),
{
    if p.len() > 0 && p.last() != '/' {
        lemma_after_last_slash_bound(p.drop_last());
    }
}

/// The piece is the single component "." (the current directory).
pub open spec fn is_dot(piece: Seq<char>) -> bool {
    piece.len() == 1 && piece[0] == '.'
}

/// The piece is the component ".." (the parent directory).
pub open spec fn is_dot_dot(piece: Seq<char>) -> bool {
    piece.len() == 2 && piece[0] == '.' && piece[1] == '.'
}

/// The final component of a '/'-separated path, as a file name: trailing '/' and "."
/// components are passed over, and there is none where the path is empty, is a root, or
/// ends in "..".
///
/// Paths follow Unix rules, as tar entry paths do: '/' is the only separator, and '\' or a
/// drive prefix such as "C:" is part of a component.
pub open spec fn final_component(p: Seq<char>) -> Option<Seq<char>>
    decreases p.len(),
{
    if p.len() == 0 {
        None
    } else if p.last() == '/' {
        final_component(p.drop_last())
    } else {
        let start = after_last_slash(p);
        let piece = p.subrange(start as int, p.len() as int);
        proof {
            lemma_after_last_slash_bound(p);
        }
        if is_dot(piece) {
            final_component(p.subrange(0, start as int))
        } else if is_dot_dot(piece) {
            None
        } else {
            Some(piece)
        }
    }
}

/// The characters of a name before its first '_' (all of it where it has none).
pub open spec fn before_underscore(name: Seq<char>) -> Seq<char>
    decreases name.len(),
{
    if name.len() == 0 {
        name
    } else if name[0] == '_' {
        Seq::empty()
    } else {
        seq![name[0]] + before_underscore(name.drop_first())
    }
}

/// The class key that a file name carries: its part before the first '_', where that
/// part starts with 'n' (as WordNet ids such as "n01440764" do).
pub open spec fn class_key_of_file_name(file_name: Seq<char>) -> Option<Seq<char>> {
    let key = before_underscore(file_name);
    if key.len() > 0 && key[0] == 'n' {
        Some(key)
    } else {
        None
    }
}

/// The class key of a tar entry: entries that are not images, that have no file name, or
/// whose file name carries no class key, have none.
pub open spec fn class_key_of_path(path: Seq<char>) -> Option<Seq<char>> {
    if !is_image_path(path) {
        None
    } else {
        match final_component(path) {
            None => None,
            Some(name) => class_key_of_file_name(name),
        }
    }
}

/// The view of an optional character vector.
pub open spec fn opt_chars(o: Option<Vec<char>>) -> Option<Seq<char>> {
    match o {
        Some(v) => Some(v@),
        None => None,
    }
}

/// `s` ends with `suffix`.
fn ends_with_chars(s: &Vec<char>, suffix: &Vec<char>) -> (r: bool)
    ensures
        r == ends_with(s@, suffix@),
{
    if suffix.len() > s.len() {
        return false;
    }
    let offset: usize = s.len() - suffix.len();
    let mut i: usize = 0;
    while i < suffix.len()
        invariant
            offset + suffix.len() == s.len(),
            i <= suffix.len(),
            forall|j: int| 0 <= j < i ==> s@[offset + j] == suffix@[j],
        decreases suffix.len() - i,
    {
        if s[offset + i] != suffix[i] {
            assert(s@.subrange(offset as int, s.len() as int)[i as int] != suffix@[i as int]);
            return false;
        }
        i = i + 1;
    }
    assert(s@.subrange(offset as int, s.len() as int) =~= suffix@);
    true
}

/// Whether a tar entry path names an image (".jpg", ".jpeg", ".png" or ".JPEG").
pub fn is_image_entry(path: &Vec<char>) -> (r: bool)
    ensures
        r == is_image_path(path@),
{
    ends_with_chars(path, &char_vec(".jpg")) || ends_with_chars(path, &char_vec(".jpeg"))
        || ends_with_chars(path, &char_vec(".png")) || ends_with_chars(path, &char_vec(".JPEG"))
}

/// The elements of `v` from `start` up to `end`.
fn chars_between(v: &Vec<char>, start: usize, end: usize) -> (r: Vec<char>)
    requires
        start <= end <= v.len(),
    ensures
        r@ == v@.subrange(start as int, end as int),
{
    let mut r: Vec<char> = Vec::new();
    let mut i: usize = start;
    while i < end
        invariant
            start <= i <= end <= v.len(),
            r@ == v@.subrange(start as int, i as int),
        decreases end - i,
    {
        r.push(v[i]);
        proof {
            assert(r@ =~= v@.subrange(start as int, i + 1));
        }
        i = i + 1;
    }
    r
}

/// The file name of a '/'-separated tar entry path: its final component, or none where
/// the path is empty, is a root or ends in "..". Unix path rules: '/' is the only separator.
pub fn file_name(path: &Vec<char>) -> (r: Option<Vec<char>>)
    ensures
        opt_chars(r) == final_component(path@),
{
    let mut end: usize = path.len();
    assert(path@.take(end as int) =~= path@);
    loop
        invariant
            end <= path.len(),
            final_component(path@) == final_component(path@.take(end as int)),
        decreases end,
    {
        let ghost cur = path@.take(end as int);
        if end == 0 {
            return None;
        }
        if path[end - 1] == '/' {
            proof {
                assert(cur.drop_last() =~= path@.take(end - 1));
            }
            end = end - 1;
        } else {
            let mut start: usize = end;
            while start > 0 && path[start - 1] != '/'
                invariant
                    start <= end <= path.len(),
                    cur == path@.take(end as int),
                    cur.len() > 0 && cur.last() != '/',
                    after_last_slash(cur) == after_last_slash(path@.take(start as int)),
                decreases start,
            {
                proof {
                    assert(path@.take(start as int).drop_last() =~= path@.take(start - 1));
                }
                start = start - 1;
            }
            proof {
                if start > 0 {
                    assert(path@.take(start as int).last() == '/');
                }
                assert(after_last_slash(cur) == start);
                lemma_after_last_slash_bound(cur);
                assert(cur.subrange(start as int, end as int) =~= path@.subrange(start as int, end as int));
                assert(cur.subrange(0, start as int) =~= path@.take(start as int));
            }
            let len: usize = end - start;
            if len == 1 && path[start] == '.' {
                end = start;
            } else if len == 2 && path[start] == '.' && path[start + 1] == '.' {
                return None;
            } else {
                return Some(chars_between(path, start, end));
            }
        }
    }
}

/// The part of a file name before its first '_', where that part starts with 'n'.
pub fn class_key(file_name: &Vec<char>) -> (r: Option<Vec<char>>)
    ensures
        opt_chars(r) == class_key_of_file_name(file_name@),
{
    let mut i: usize = 0;
    assert(file_name@.skip(0) =~= file_name@);
    while i < file_name.len() && file_name[i] != '_'
        invariant
            i <= file_name.len(),
            before_underscore(file_name@) == file_name@.take(i as int) + before_underscore(
                file_name@.skip(i as int),
            ),
        decreases file_name.len() - i,
    {
        proof {
            let rest = file_name@.skip(i as int);
            assert(rest.drop_first() =~= file_name@.skip(i + 1));
            assert(file_name@.take(i + 1) =~= file_name@.take(i as int) + seq![rest[0]]);
            assert(before_underscore(rest) == seq![rest[0]] + before_underscore(rest.drop_first()));
        }
        i = i + 1;
    }
    proof {
        let rest = file_name@.skip(i as int);
        assert(before_underscore(rest) =~= Seq::<char>::empty());
        assert(before_underscore(file_name@) =~= file_name@.take(i as int));
    }
    if i > 0 && file_name[0] == 'n' {
        Some(chars_between(file_name, 0, i))
    } else {
        None
    }
}

/// The class key of a tar entry path: present only for image entries whose file name
/// starts with a WordNet-style key ("n...") before its first '_'.
pub fn entry_class_key(path: &str) -> (r: Option<Vec<char>>)
    ensures
        opt_chars(r) == class_key_of_path(path@),
{
    let chars = char_vec(path);
    if !is_image_entry(&chars) {
        return None;
    }
    match file_name(&chars) {
        None => None,
        Some(name) => class_key(&name),
    }
}

} // verus!
