//! Line-oriented record helpers: splitting and joining delimited text,
//! decimal numbers, and the line framing of a text database.

use vstd::prelude::*;
use vstd::string::*;

verus! {

/// `String::push` of std appends the given character to the end of the string.
pub assume_specification[ String::push ](s: &mut String, c: char)
    ensures
        final(s)@ == old(s)@.push(c),
;

/// The characters of each element of a list of character vectors.
pub open spec fn views(v: Seq<Vec<char>>) -> Seq<Seq<char>> {
    Seq::new(v.len(), |i: int| v[i]@)
}

/// The characters of each element of a list of strings.
pub open spec fn string_views(v: Seq<String>) -> Seq<Seq<char>> {
    Seq::new(v.len(), |i: int| v[i]@)
}

/// The characters of a string, as a vector.
pub fn to_chars(s: &str) -> (out: Vec<char>)
    ensures
        out@ == s@,
{
    let n = s.unicode_len();
    let mut out: Vec<char> = Vec::new();
    let mut i: usize = 0;
    while i < n
        invariant
            n == s@.len(),
            i <= n,
            out@ == s@.take(i as int),
        decreases n - i,
    {
        out.push(s.get_char(i));
        proof {
            assert(s@.take(i as int + 1) =~= s@.take(i as int).push(s@[i as int]));
        }
        i += 1;
    }
    proof {
        assert(s@.take(n as int) =~= s@);
    }
    out
}

/// The string made of the given characters.
pub fn from_chars(v: &Vec<char>) -> (out: String)
    ensures
        out@ == v@,
{
    let mut out = String::new();
    let mut i: usize = 0;
    while i < v.len()
        invariant
            i <= v.len(),
            out@ == v@.take(i as int),
        decreases v.len() - i,
    {
        out.push(v[i]);
        proof {
            assert(v@.take(i as int + 1) =~= v@.take(i as int).push(v@[i as int]));
        }
        i += 1;
    }
    proof {
        assert(v@.take(v.len() as int) =~= v@);
    }
    out
}

/// Whether two character vectors hold the same text.
pub fn same_text(a: &Vec<char>, b: &Vec<char>) -> (r: bool)
    ensures
        r == (a@ == b@),
{
    if a.len() != b.len() {
        return false;
    }
    let mut i: usize = 0;
    while i < a.len()
        invariant
            a.len() == b.len(),
            i <= a.len(),
            a@.take(i as int) == b@.take(i as int),
        decreases a.len() - i,
    {
        if a[i] != b[i] {
            return false;
        }
        proof {
            assert(a@.take(i as int + 1) =~= a@.take(i as int).push(a@[i as int]));
            assert(b@.take(i as int + 1) =~= b@.take(i as int).push(b@[i as int]));
        }
        i += 1;
    }
    proof {
        assert(a@.take(a.len() as int) =~= a@);
        assert(b@.take(b.len() as int) =~= b@);
    }
    true
}

/// The pieces of `s` between occurrences of `sep`. There is always at least
/// one piece; the empty text has one empty piece.
pub open spec fn split_spec(s: Seq<char>, sep: char) -> Seq<Seq<char>>
    decreases s.len(),
{
    if s.len() == 0 {
        seq![Seq::<char>::empty()]
    } else {
        let before = split_spec(s.drop_last(), sep);
        if s.last() == sep {
            before.push(Seq::<char>::empty())
        } else {
            before.drop_last().push(before.last().push(s.last()))
        }
    }
}

/// A split has at least one piece.
pub proof fn lemma_split_nonempty(s: Seq<char>, sep: char)
    ensures
        split_spec(s, sep).len() >= 1,
    decreases s.len(),
{
    if s.len() > 0 {
        lemma_split_nonempty(s.drop_last(), sep);
    }
}

/// No piece of a split holds the separator.
pub proof fn lemma_split_pieces_free(s: Seq<char>, sep: char)
    ensures
        forall|i: int| 0 <= i < split_spec(s, sep).len() ==> !(#[trigger] split_spec(s, sep)[i]).contains(sep),
    decreases s.len(),
{
    if s.len() > 0 {
        lemma_split_pieces_free(s.drop_last(), sep);
        lemma_split_nonempty(s.drop_last(), sep);
        let before = split_spec(s.drop_last(), sep);
        if s.last() != sep {
            let grown = before.last().push(s.last());
            assert forall|j: int| 0 <= j < grown.len() implies grown[j] != sep by {
                if j < before.last().len() {
                    assert(before.last().contains(before.last()[j]));
                }
            }
        }
    }
}

/// Splits `s` at each occurrence of `sep`.
pub fn split(s: &Vec<char>, sep: char) -> (parts: Vec<Vec<char>>)
    ensures
        views(parts@) == split_spec(s@, sep),
        parts@.len() >= 1,
{
    let mut parts: Vec<Vec<char>> = Vec::new();
    let mut cur: Vec<char> = Vec::new();
    let mut i: usize = 0;
    proof {
        assert(s@.take(0) =~= Seq::<char>::empty());
        assert(views(parts@).push(cur@) =~= split_spec(s@.take(0), sep));
    }
    while i < s.len()
        invariant
            i <= s.len(),
            views(parts@).push(cur@) == split_spec(s@.take(i as int), sep),
        decreases s.len() - i,
    {
        let c = s[i];
        let ghost before = views(parts@).push(cur@);
        proof {
            let t = s@.take(i as int + 1);
            assert(t.drop_last() =~= s@.take(i as int));
            assert(t.last() == c);
        }
        if c == sep {
            parts.push(cur);
            cur = Vec::new();
            proof {
                assert(views(parts@) =~= before);
            }
        } else {
            cur.push(c);
            proof {
                assert(views(parts@).push(cur@) =~= before.drop_last().push(before.last().push(c)));
            }
        }
        i += 1;
    }
    proof {
        assert(s@.take(s.len() as int) =~= s@);
    }
    parts.push(cur);
    parts
}

/// The pieces written one after another with `sep` between neighbours.
pub open spec fn join_spec(parts: Seq<Seq<char>>, sep: char) -> Seq<char>
    decreases parts.len(),
{
    if parts.len() == 0 {
        Seq::<char>::empty()
    } else if parts.len() == 1 {
        parts[0]
    } else {
        join_spec(parts.drop_last(), sep).push(sep) + parts.last()
    }
}

/// Appends the characters of `src` to `dst`.
pub fn append(dst: &mut Vec<char>, src: &Vec<char>)
    ensures
        final(dst)@ == old(dst)@ + src@,
{
    let mut i: usize = 0;
    while i < src.len()
        invariant
            i <= src.len(),
            dst@ == old(dst)@ + src@.take(i as int),
        decreases src.len() - i,
    {
        dst.push(src[i]);
        proof {
            assert(src@.take(i as int + 1) =~= src@.take(i as int).push(src@[i as int]));
            assert(dst@ =~= old(dst)@ + src@.take(i as int + 1));
        }
        i += 1;
    }
    proof {
        assert(src@.take(src.len() as int) =~= src@);
    }
}

/// Joins the pieces with `sep` between neighbours.
pub fn join(parts: &Vec<Vec<char>>, sep: char) -> (out: Vec<char>)
    ensures
        out@ == join_spec(views(parts@), sep),
{
    let mut out: Vec<char> = Vec::new();
    let mut i: usize = 0;
    proof {
        assert(views(parts@).take(0) =~= Seq::<Seq<char>>::empty());
    }
    while i < parts.len()
        invariant
            i <= parts.len(),
            out@ == join_spec(views(parts@).take(i as int), sep),
        decreases parts.len() - i,
    {
        proof {
            let t = views(parts@).take(i as int + 1);
            assert(t.drop_last() =~= views(parts@).take(i as int));
            assert(t.last() == parts@[i as int]@);
            if i == 0 {
                assert(t[0] =~= Seq::<char>::empty() + parts@[0]@);
            }
        }
        if i > 0 {
            out.push(sep);
        }
        append(&mut out, &parts[i]);
        i += 1;
    }
    proof {
        assert(views(parts@).take(parts.len() as int) =~= views(parts@));
    }
    out
}

/// Whether `c` is a decimal digit.
pub open spec fn is_digit(c: char) -> bool {
    '0' <= c && c <= '9'
}

/// Whether every character of `s` is a decimal digit.
pub open spec fn all_digits(s: Seq<char>) -> bool {
    forall|i: int| 0 <= i < s.len() ==> is_digit(#[trigger] s[i])
}

/// The number that the digits of `s` write in base ten.
pub open spec fn decimal_value(s: Seq<char>) -> nat
    decreases s.len(),
{
    if s.len() == 0 {
        0
    } else {
        decimal_value(s.drop_last()) * 10 + (s.last() as nat - '0' as nat) as nat
    }
}

/// What a text reads as an unsigned 32-bit number: an optional `+`, then one
/// or more decimal digits whose value fits; anything else reads as nothing.
pub open spec fn parse_u32_spec(s: Seq<char>) -> Option<u32> {
    let d = if s.len() > 0 && s[0] == '+' {
        s.drop_first()
    } else {
        s
    };
    if d.len() > 0 && all_digits(d) && decimal_value(d) <= u32::MAX {
        Some(decimal_value(d) as u32)
    } else {
        None
    }
}

/// A prefix of a digit string is worth no more than the whole.
pub proof fn lemma_decimal_prefix(s: Seq<char>, k: int)
    requires
        0 <= k <= s.len(),
        all_digits(s),
    ensures
        decimal_value(s.take(k)) <= decimal_value(s),
    decreases s.len(),
{
    if k == s.len() {
        assert(s.take(k) =~= s);
    } else {
        assert(s.drop_last().take(k) =~= s.take(k));
        lemma_decimal_prefix(s.drop_last(), k);
        assert(is_digit(s.last()));
    }
}

/// One more digit multiplies the value by ten and adds the digit.
pub proof fn lemma_decimal_step(d: Seq<char>, k: int)
    requires
        0 <= k < d.len(),
        all_digits(d.take(k)),
        is_digit(d[k]),
    ensures
        all_digits(d.take(k + 1)),
        decimal_value(d.take(k + 1)) == decimal_value(d.take(k)) * 10 + (d[k] as nat - '0' as nat),
{
    let t = d.take(k + 1);
    assert(t.drop_last() =~= d.take(k));
    assert(t.last() == d[k]);
    assert forall|j: int| 0 <= j < t.len() implies is_digit(#[trigger] t[j]) by {
        if j < k {
            assert(d.take(k)[j] == t[j]);
        }
    }
}

/// Reads a text as an unsigned 32-bit number.
pub fn parse_u32(s: &Vec<char>) -> (r: Option<u32>)
    ensures
        r == parse_u32_spec(s@),
{
    let n = s.len();
    let start: usize = if n > 0 && s[0] == '+' {
        1
    } else {
        0
    };
    if start == n {
        return None;
    }
    let ghost d = s@.subrange(start as int, n as int);
    proof {
        if start == 1 {
            assert(d =~= s@.drop_first());
        } else {
            assert(d =~= s@);
        }
        assert(d.take(0) =~= Seq::<char>::empty());
    }
    let mut acc: u64 = 0;
    let mut i: usize = start;
    while i < n
        invariant
            n == s.len(),
            start <= i <= n,
            d == s@.subrange(start as int, n as int),
            d == (if s@.len() > 0 && s@[0] == '+' {
                s@.drop_first()
            } else {
                s@
            }),
            all_digits(d.take(i - start)),
            acc == decimal_value(d.take(i - start)),
            acc <= u32::MAX,
        decreases n - i,
    {
        let c = s[i];
        if !('0' <= c && c <= '9') {
            proof {
                assert(d[i - start] == c);
            }
            return None;
        }
        proof {
            assert(d[i - start] == c);
            lemma_decimal_step(d, i - start);
        }
        let v: u64 = acc * 10 + (c as u64 - '0' as u64);
        if v > 4294967295u64 {
            proof {
                if all_digits(d) {
                    lemma_decimal_prefix(d, i - start + 1);
                }
            }
            return None;
        }
        acc = v;
        i += 1;
    }
    proof {
        assert(d.take(n - start) =~= d);
    }
    Some(acc as u32)
}

/// The character that writes a digit below ten.
pub open spec fn digit_char(d: nat) -> char {
    if d == 0 {
        '0'
    } else if d == 1 {
        '1'
    } else if d == 2 {
        '2'
    } else if d == 3 {
        '3'
    } else if d == 4 {
        '4'
    } else if d == 5 {
        '5'
    } else if d == 6 {
        '6'
    } else if d == 7 {
        '7'
    } else if d == 8 {
        '8'
    } else {
        '9'
    }
}

/// The decimal digits of `n`, without leading zeros.
pub open spec fn decimal_digits(n: nat) -> Seq<char>
    decreases n,
{
    if n < 10 {
        seq![digit_char(n)]
    } else {
        decimal_digits(n / 10).push(digit_char(n % 10))
    }
}

/// Writes a number in decimal.
pub fn render_u64(n: u64) -> (out: Vec<char>)
    ensures
        out@ == decimal_digits(n as nat),
    decreases n,
{
    let d: u64 = n % 10;
    let c: char = if d == 0 {
        '0'
    } else if d == 1 {
        '1'
    } else if d == 2 {
        '2'
    } else if d == 3 {
        '3'
    } else if d == 4 {
        '4'
    } else if d == 5 {
        '5'
    } else if d == 6 {
        '6'
    } else if d == 7 {
        '7'
    } else if d == 8 {
        '8'
    } else {
        '9'
    };
    if n < 10 {
        let mut out: Vec<char> = Vec::new();
        out.push(c);
        proof {
            assert(out@ =~= seq![digit_char(n as nat)]);
        }
        out
    } else {
        let mut out = render_u64(n / 10);
        out.push(c);
        out
    }
}

/// Writes a 32-bit number in decimal.
pub fn render_u32(n: u32) -> (out: Vec<char>)
    ensures
        out@ == decimal_digits(n as nat),
{
    render_u64(n as u64)
}

/// A number written in decimal reads back as itself.
pub proof fn lemma_render_then_parse(n: u32)
    ensures
        parse_u32_spec(decimal_digits(n as nat)) == Some(n),
{
    lemma_digits_value(n as nat);
}

/// The decimal digits of a number are digits, do not begin with `+`, and are
/// worth the number.
pub proof fn lemma_digits_value(n: nat)
    ensures
        decimal_digits(n).len() > 0,
        all_digits(decimal_digits(n)),
        decimal_digits(n)[0] != '+',
        decimal_value(decimal_digits(n)) == n,
    decreases n,
{
    let s = decimal_digits(n);
    if n < 10 {
        assert(s.drop_last() =~= Seq::<char>::empty());
        assert(decimal_value(s.drop_last()) == 0);
    } else {
        lemma_digits_value(n / 10);
        assert(s.drop_last() =~= decimal_digits(n / 10));
    }
}

/// The lines of a text: its pieces between newlines, without the empty piece
/// that follows a final newline.
pub open spec fn lines_spec(content: Seq<char>) -> Seq<Seq<char>> {
    let pieces = split_spec(content, '\n');
    if pieces.len() > 0 && pieces.last().len() == 0 {
        pieces.drop_last()
    } else {
        pieces
    }
}

/// Cuts a text into its lines.
pub fn split_lines(content: &Vec<char>) -> (lines: Vec<Vec<char>>)
    ensures
        views(lines@) == lines_spec(content@),
{
    let mut lines = split(content, '\n');
    let ghost pieces = views(lines@);
    let last = lines.len() - 1;
    if lines[last].len() == 0 {
        lines.pop();
        proof {
            assert(views(lines@) =~= pieces.drop_last());
        }
    }
    lines
}

/// The text that holds each line followed by a newline.
pub open spec fn render_lines_spec(lines: Seq<Seq<char>>) -> Seq<char>
    decreases lines.len(),
{
    if lines.len() == 0 {
        Seq::<char>::empty()
    } else {
        render_lines_spec(lines.drop_last()) + lines.last().push('\n')
    }
}

/// Writes each line followed by a newline.
pub fn render_lines(lines: &Vec<Vec<char>>) -> (out: Vec<char>)
    ensures
        out@ == render_lines_spec(views(lines@)),
{
    let mut out: Vec<char> = Vec::new();
    let mut i: usize = 0;
    proof {
        assert(views(lines@).take(0) =~= Seq::<Seq<char>>::empty());
    }
    while i < lines.len()
        invariant
            i <= lines.len(),
            out@ == render_lines_spec(views(lines@).take(i as int)),
        decreases lines.len() - i,
    {
        proof {
            let t = views(lines@).take(i as int + 1);
            assert(t.drop_last() =~= views(lines@).take(i as int));
            assert(t.last() == lines@[i as int]@);
        }
        let ghost before = out@;
        append(&mut out, &lines[i]);
        out.push('\n');
        proof {
            assert(out@ =~= before + lines@[i as int]@.push('\n'));
        }
        i += 1;
    }
    proof {
        assert(views(lines@).take(lines.len() as int) =~= views(lines@));
    }
    out
}

/// Whether a record line belongs to `key`: it begins with the key and a colon.
pub open spec fn has_key_spec(line: Seq<char>, key: Seq<char>) -> bool {
    line.len() > key.len() && line.take(key.len() as int) == key && line[key.len() as int] == ':'
}

/// Whether a record line begins with `key` and a colon.
pub fn has_key(line: &Vec<char>, key: &Vec<char>) -> (r: bool)
    ensures
        r == has_key_spec(line@, key@),
{
    if line.len() <= key.len() {
        return false;
    }
    let mut i: usize = 0;
    while i < key.len()
        invariant
            key.len() < line.len(),
            i <= key.len(),
            line@.take(i as int) == key@.take(i as int),
        decreases key.len() - i,
    {
        if line[i] != key[i] {
            proof {
                assert(line@.take(key.len() as int)[i as int] == line@[i as int]);
            }
            return false;
        }
        proof {
            assert(line@.take(i as int + 1) =~= line@.take(i as int).push(line@[i as int]));
            assert(key@.take(i as int + 1) =~= key@.take(i as int).push(key@[i as int]));
        }
        i += 1;
    }
    proof {
        assert(key@.take(key.len() as int) =~= key@);
    }
    line[key.len()] == ':'
}

/// The number in field `index` of a colon-separated record, if the record has
/// that field and it reads as a number.
pub open spec fn numeric_field_spec(line: Seq<char>, index: int) -> Option<u32> {
    let fields = split_spec(line, ':');
    if 0 <= index < fields.len() {
        parse_u32_spec(fields[index])
    } else {
        None
    }
}

/// Reads field `index` of a colon-separated record as a number.
pub fn numeric_field(line: &Vec<char>, index: usize) -> (r: Option<u32>)
    ensures
        r == numeric_field_spec(line@, index as int),
{
    let fields = split(line, ':');
    if index < fields.len() {
        parse_u32(&fields[index])
    } else {
        None
    }
}

/// A copy of a text.
pub fn copy_text(v: &Vec<char>) -> (out: Vec<char>)
    ensures
        out@ == v@,
{
    let mut out: Vec<char> = Vec::new();
    append(&mut out, v);
    proof {
        assert(out@ =~= v@);
    }
    out
}

/// Whether `list` holds the text `s`.
pub fn contains_text(list: &Vec<Vec<char>>, s: &Vec<char>) -> (r: bool)
    ensures
        r == views(list@).contains(s@),
{
    let mut i: usize = 0;
    while i < list.len()
        invariant
            i <= list.len(),
            forall|j: int| 0 <= j < i ==> (#[trigger] views(list@)[j]) != s@,
        decreases list.len() - i,
    {
        if same_text(&list[i], s) {
            proof {
                assert(views(list@)[i as int] == s@);
            }
            return true;
        }
        i += 1;
    }
    false
}

/// The strings that hold the given texts.
pub fn to_strings(v: &Vec<Vec<char>>) -> (out: Vec<String>)
    ensures
        string_views(out@) == views(v@),
{
    let mut out: Vec<String> = Vec::new();
    let mut i: usize = 0;
    while i < v.len()
        invariant
            i <= v.len(),
            string_views(out@) == views(v@).take(i as int),
        decreases v.len() - i,
    {
        let ghost before = string_views(out@);
        out.push(from_chars(&v[i]));
        proof {
            assert(string_views(out@) =~= before.push(v@[i as int]@));
            assert(views(v@).take(i as int + 1) =~= views(v@).take(i as int).push(v@[i as int]@));
        }
        i += 1;
    }
    proof {
        assert(views(v@).take(v.len() as int) =~= views(v@));
    }
    out
}

/// The texts that the given strings hold.
pub fn to_texts(v: &Vec<String>) -> (out: Vec<Vec<char>>)
    ensures
        views(out@) == string_views(v@),
{
    let mut out: Vec<Vec<char>> = Vec::new();
    let mut i: usize = 0;
    while i < v.len()
        invariant
            i <= v.len(),
            views(out@) == string_views(v@).take(i as int),
        decreases v.len() - i,
    {
        let ghost before = views(out@);
        out.push(to_chars(v[i].as_str()));
        proof {
            assert(views(out@) =~= before.push(v@[i as int]@));
            assert(string_views(v@).take(i as int + 1) =~= string_views(v@).take(i as int).push(
                v@[i as int]@,
            ));
        }
        i += 1;
    }
    proof {
        assert(string_views(v@).take(v.len() as int) =~= string_views(v@));
    }
    out
}

/// The text in an optional string.
pub open spec fn option_text(s: Option<String>) -> Option<Seq<char>> {
    match s {
        Some(t) => Some(t@),
        None => None,
    }
}

/// Whether `list` holds the string `s`.
pub fn contains_string(list: &Vec<String>, s: &String) -> (r: bool)
    ensures
        r == string_views(list@).contains(s@),
{
    let mut i: usize = 0;
    while i < list.len()
        invariant
            i <= list.len(),
            forall|j: int| 0 <= j < i ==> (#[trigger] string_views(list@)[j]) != s@,
        decreases list.len() - i,
    {
        if list[i] == *s {
            proof {
                assert(string_views(list@)[i as int] == s@);
            }
            return true;
        }
        i += 1;
    }
    false
}

/// Whether `b` holds every string of `a`.
pub fn all_in(a: &Vec<String>, b: &Vec<String>) -> (r: bool)
    ensures
        r == string_views(a@).to_set().subset_of(string_views(b@).to_set()),
{
    let mut i: usize = 0;
    while i < a.len()
        invariant
            i <= a.len(),
            forall|j: int|
                0 <= j < i ==> string_views(b@).contains(#[trigger] string_views(a@)[j]),
        decreases a.len() - i,
    {
        if !contains_string(b, &a[i]) {
            proof {
                let x = string_views(a@)[i as int];
                assert(string_views(a@).contains(x));
                assert(string_views(a@).to_set().contains(x));
                assert(!string_views(b@).to_set().contains(x));
            }
            return false;
        }
        i += 1;
    }
    proof {
        assert forall|x: Seq<char>| string_views(a@).to_set().contains(x) implies string_views(
            b@,
        ).to_set().contains(x) by {
            let j = choose|j: int| 0 <= j < a@.len() && string_views(a@)[j] == x;
            assert(string_views(b@).contains(string_views(a@)[j]));
        }
    }
    true
}

/// Whether two lists of strings hold the same members, in whatever order and
/// however often.
pub fn same_members(a: &Vec<String>, b: &Vec<String>) -> (r: bool)
    ensures
        r == (string_views(a@).to_set() == string_views(b@).to_set()),
{
    let r = all_in(a, b) && all_in(b, a);
    proof {
        if r {
            assert(string_views(a@).to_set() =~= string_views(b@).to_set());
        }
    }
    r
}

/// A copy of a list of strings.
pub fn copy_strings(v: &Vec<String>) -> (out: Vec<String>)
    ensures
        string_views(out@) == string_views(v@),
{
    let mut out: Vec<String> = Vec::new();
    let mut i: usize = 0;
    while i < v.len()
        invariant
            i <= v.len(),
            out@.len() == i,
            forall|j: int| 0 <= j < i ==> (#[trigger] out@[j])@ == v@[j]@,
        decreases v.len() - i,
    {
        out.push(v[i].clone());
        i += 1;
    }
    proof {
        assert(string_views(out@) =~= string_views(v@));
    }
    out
}

/// The members that a comma-separated list names; an empty list names none.
pub open spec fn members_spec(field: Seq<char>) -> Seq<Seq<char>> {
    if field.len() == 0 {
        Seq::<Seq<char>>::empty()
    } else {
        split_spec(field, ',')
    }
}

/// Reads a comma-separated member list.
pub fn members(field: &Vec<char>) -> (out: Vec<Vec<char>>)
    ensures
        views(out@) == members_spec(field@),
{
    if field.len() == 0 {
        let out: Vec<Vec<char>> = Vec::new();
        proof {
            assert(views(out@) =~= Seq::<Seq<char>>::empty());
        }
        out
    } else {
        split(field, ',')
    }
}

/// Text without the separator, added behind a text, lengthens the last
/// piece and adds none.
pub proof fn lemma_split_append(s: Seq<char>, t: Seq<char>, sep: char)
    requires
        !t.contains(sep),
    ensures
        split_spec(s, sep).len() >= 1,
        split_spec(s + t, sep) == split_spec(s, sep).drop_last().push(
            split_spec(s, sep).last() + t,
        ),
    decreases t.len(),
{
    lemma_split_nonempty(s, sep);
    let pieces = split_spec(s, sep);
    if t.len() == 0 {
        assert(s + t =~= s);
        assert(pieces.last() + t =~= pieces.last());
        assert(pieces.drop_last().push(pieces.last()) =~= pieces);
    } else {
        let shorter = t.drop_last();
        assert forall|i: int| 0 <= i < shorter.len() implies shorter[i] != sep by {
            assert(t.contains(t[i]));
        }
        assert(t.contains(t.last()));
        lemma_split_append(s, shorter, sep);
        assert((s + t).drop_last() =~= s + shorter);
        assert((s + t).last() == t.last());
        let before = split_spec(s + shorter, sep);
        assert(before.drop_last() =~= pieces.drop_last());
        assert(before.last().push(t.last()) =~= pieces.last() + t);
    }
}

/// Lines that hold no newline, once written out, are read back as they were.
pub proof fn lemma_lines_of_rendered(lines: Seq<Seq<char>>)
    requires
        forall|i: int| 0 <= i < lines.len() ==> !(#[trigger] lines[i]).contains('\n'),
    ensures
        split_spec(render_lines_spec(lines), '\n') == lines.push(Seq::<char>::empty()),
        lines_spec(render_lines_spec(lines)) == lines,
    decreases lines.len(),
{
    let empty = Seq::<char>::empty();
    if lines.len() == 0 {
        assert(split_spec(render_lines_spec(lines), '\n') =~= lines.push(empty));
    } else {
        let rest = lines.drop_last();
        let last = lines.last();
        assert forall|i: int| 0 <= i < rest.len() implies !(#[trigger] rest[i]).contains('\n') by {
            assert(rest[i] == lines[i]);
        }
        lemma_lines_of_rendered(rest);
        let head = render_lines_spec(rest);
        lemma_split_append(head, last, '\n');
        let whole = render_lines_spec(lines);
        assert(whole =~= (head + last).push('\n'));
        assert(whole.drop_last() =~= head + last);
        assert(rest.push(empty).drop_last() =~= rest);
        assert(empty + last =~= last);
        assert(rest.push(last) =~= lines);
        assert(split_spec(head + last, '\n') == lines);
        assert(split_spec(whole, '\n') == lines.push(empty));
    }
    assert(lines.push(empty).drop_last() =~= lines);
}

/// Joining the pieces of a split gives the text back.
pub proof fn lemma_join_of_split(s: Seq<char>, sep: char)
    ensures
        join_spec(split_spec(s, sep), sep) == s,
    decreases s.len(),
{
    if s.len() == 0 {
        assert(join_spec(split_spec(s, sep), sep) =~= s);
    } else {
        let rest = s.drop_last();
        let before = split_spec(rest, sep);
        lemma_join_of_split(rest, sep);
        lemma_split_nonempty(rest, sep);
        let pieces = split_spec(s, sep);
        if s.last() == sep {
            assert(pieces.drop_last() =~= before);
            assert(join_spec(pieces, sep) =~= rest.push(sep));
        } else {
            assert(pieces.last() == before.last().push(s.last()));
            if before.len() == 1 {
                assert(join_spec(pieces, sep) =~= before[0].push(s.last()));
            } else {
                assert(pieces.drop_last() =~= before.drop_last());
                assert(join_spec(pieces, sep) =~= join_spec(before, sep).push(s.last()));
            }
        }
        assert(rest.push(s.last()) =~= s);
    }
}

/// Splitting the join of pieces that hold no separator gives the pieces back.
pub proof fn lemma_split_of_join(pieces: Seq<Seq<char>>, sep: char)
    requires
        pieces.len() >= 1,
        forall|i: int| 0 <= i < pieces.len() ==> !(#[trigger] pieces[i]).contains(sep),
    ensures
        split_spec(join_spec(pieces, sep), sep) == pieces,
    decreases pieces.len(),
{
    let empty = Seq::<char>::empty();
    if pieces.len() == 1 {
        lemma_split_append(empty, pieces[0], sep);
        assert(empty + pieces[0] =~= pieces[0]);
        assert(split_spec(empty, sep) =~= seq![empty]);
        assert(seq![empty].drop_last().push(empty + pieces[0]) =~= pieces);
    } else {
        let rest = pieces.drop_last();
        assert forall|i: int| 0 <= i < rest.len() implies !(#[trigger] rest[i]).contains(sep) by {
            assert(rest[i] == pieces[i]);
        }
        lemma_split_of_join(rest, sep);
        let head = join_spec(rest, sep).push(sep);
        assert(head.drop_last() =~= join_spec(rest, sep));
        assert(split_spec(head, sep) == rest.push(empty));
        lemma_split_append(head, pieces.last(), sep);
        assert(rest.push(empty).drop_last() =~= rest);
        assert(empty + pieces.last() =~= pieces.last());
        assert(rest.push(pieces.last()) =~= pieces);
    }
}

/// A join of pieces that hold no `c`, with a separator other than `c`, holds
/// no `c`.
pub proof fn lemma_join_free(pieces: Seq<Seq<char>>, sep: char, c: char)
    requires
        sep != c,
        forall|i: int| 0 <= i < pieces.len() ==> !(#[trigger] pieces[i]).contains(c),
    ensures
        !join_spec(pieces, sep).contains(c),
    decreases pieces.len(),
{
    let joined = join_spec(pieces, sep);
    if pieces.len() >= 2 {
        let rest = pieces.drop_last();
        assert forall|i: int| 0 <= i < rest.len() implies !(#[trigger] rest[i]).contains(c) by {
            assert(rest[i] == pieces[i]);
        }
        lemma_join_free(rest, sep, c);
        let head = join_spec(rest, sep);
        assert forall|k: int| 0 <= k < joined.len() implies joined[k] != c by {
            if k < head.len() {
                assert(head.contains(head[k]));
            } else if k > head.len() {
                assert(pieces.last().contains(pieces.last()[k - head.len() - 1]));
            }
        }
    } else if pieces.len() == 1 {
        assert(joined == pieces[0]);
    }
}

/// The pieces of a text that holds no `c` hold no `c`.
pub proof fn lemma_split_keeps_free(s: Seq<char>, sep: char, c: char)
    requires
        !s.contains(c),
    ensures
        forall|i: int|
            0 <= i < split_spec(s, sep).len() ==> !(#[trigger] split_spec(s, sep)[i]).contains(c),
    decreases s.len(),
{
    if s.len() > 0 {
        let rest = s.drop_last();
        assert forall|k: int| 0 <= k < rest.len() implies rest[k] != c by {
            assert(s.contains(s[k]));
        }
        assert(s.contains(s.last()));
        lemma_split_keeps_free(rest, sep, c);
        lemma_split_nonempty(rest, sep);
        let before = split_spec(rest, sep);
        if s.last() != sep {
            let grown = before.last().push(s.last());
            assert forall|j: int| 0 <= j < grown.len() implies grown[j] != c by {
                if j < before.last().len() {
                    assert(before.last().contains(before.last()[j]));
                }
            }
        }
    }
}

/// Text added behind a text leaves all pieces but the last as they are.
pub proof fn lemma_split_prefix_stable(s: Seq<char>, t: Seq<char>, sep: char)
    ensures
        split_spec(s, sep).len() >= 1,
        split_spec(s + t, sep).len() >= split_spec(s, sep).len(),
        forall|i: int|
            0 <= i < split_spec(s, sep).len() - 1 ==> (#[trigger] split_spec(s + t, sep)[i])
                == split_spec(s, sep)[i],
    decreases t.len(),
{
    lemma_split_nonempty(s, sep);
    if t.len() == 0 {
        assert(s + t =~= s);
    } else {
        lemma_split_prefix_stable(s, t.drop_last(), sep);
        assert((s + t).drop_last() =~= s + t.drop_last());
    }
}

/// A record of a key that holds no colon has at least two fields, the first
/// of which is the key.
pub proof fn lemma_key_is_first_field(line: Seq<char>, key: Seq<char>)
    requires
        has_key_spec(line, key),
        !key.contains(':'),
    ensures
        split_spec(line, ':').len() >= 2,
        split_spec(line, ':')[0] == key,
{
    let empty = Seq::<char>::empty();
    let head = key.push(':');
    let tail = line.skip(key.len() as int + 1);
    assert(line =~= head + tail);
    lemma_split_append(empty, key, ':');
    assert(empty + key =~= key);
    assert(split_spec(empty, ':') =~= seq![empty]);
    assert(split_spec(key, ':') =~= seq![key]);
    assert(head.drop_last() =~= key);
    assert(split_spec(head, ':') =~= seq![key, empty]);
    lemma_split_prefix_stable(head, tail, ':');
}

} // verus!
