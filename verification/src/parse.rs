//! The feed-file grammar.
//!
//! A feed file is UTF-8 text, one entry per line. Lines starting with `#`
//! are comments; a leading comment block may carry one category header of
//! the shape `# Category        : <value>`. Every other non-blank line is
//! either an IPv4 CIDR network literal `a.b.c.d/p` or a bare IPv4 address
//! literal `a.b.c.d`, with decimal components free of leading zeros.

use crate::net::{Ipv4Addr, Ipv4Network};
use crate::text::{
    all_digits, chars_of, contains_char, digits_val, is_digit, lemma_split_on_len, split_on,
    split_vec, trim, trim_str,
};
use vstd::prelude::*;

verus! {

/// A decimal address octet: one to three digits, no leading zero, at most
/// 255.
pub open spec fn valid_octet(s: Seq<char>) -> bool {
    &&& 1 <= s.len() <= 3
    &&& all_digits(s)
    &&& (s.len() > 1 ==> s[0] != '0')
    &&& digits_val(s) <= 255
}

/// A decimal prefix length: one or two digits, no leading zero, at most 32.
pub open spec fn valid_prefix_part(s: Seq<char>) -> bool {
    &&& 1 <= s.len() <= 2
    &&& all_digits(s)
    &&& (s.len() > 1 ==> s[0] != '0')
    &&& digits_val(s) <= 32
}

/// A digit run denotes a number no smaller than zero.
pub proof fn lemma_digits_val_nonneg(s: Seq<char>)
    requires
        all_digits(s),
    ensures
        digits_val(s) >= 0,
    decreases s.len(),
{
    if s.len() > 0 {
        assert(is_digit(s.last()));
        lemma_digits_val_nonneg(s.drop_last());
    }
}

/// A run of at most three digits denotes a number below one thousand.
pub proof fn lemma_digits_val_bound(s: Seq<char>)
    requires
        all_digits(s),
        s.len() <= 3,
    ensures
        0 <= digits_val(s) <= 999,
    decreases s.len(),
{
    lemma_digits_val_nonneg(s);
    if s.len() > 0 {
        assert(is_digit(s.last()));
        assert(all_digits(s.drop_last()));
        lemma_digits_val_two(s.drop_last());
    }
}

/// A run of at most two digits denotes a number below one hundred.
pub proof fn lemma_digits_val_two(s: Seq<char>)
    requires
        all_digits(s),
        s.len() <= 2,
    ensures
        0 <= digits_val(s) <= 99,
    decreases s.len(),
{
    lemma_digits_val_nonneg(s);
    if s.len() > 0 {
        assert(is_digit(s.last()));
        assert(all_digits(s.drop_last()));
        lemma_digits_val_one(s.drop_last());
    }
}

/// A run of at most one digit denotes a number below ten.
pub proof fn lemma_digits_val_one(s: Seq<char>)
    requires
        all_digits(s),
        s.len() <= 1,
    ensures
        0 <= digits_val(s) <= 9,
{
    if s.len() > 0 {
        assert(is_digit(s.last()));
        assert(s.drop_last().len() == 0);
        assert(digits_val(s.drop_last()) == 0);
    }
}

/// Reads a digit run as an address octet.
pub fn parse_octet(t: &Vec<char>) -> (r: Option<u8>)
    ensures
        r is Some <==> valid_octet(t@),
        r is Some ==> r->0 == digits_val(t@),
{
    if t.len() < 1 || t.len() > 3 {
        return None;
    }
    if t.len() > 1 && t[0] == '0' {
        return None;
    }
    let n: usize = t.len();
    let mut val: u32 = 0;
    let mut i: usize = 0;
    while i < n
        invariant
            i <= n == t@.len() <= 3,
            all_digits(t@.take(i as int)),
            val == digits_val(t@.take(i as int)),
            0 <= val <= 999,
        decreases n - i,
    {
        let c = t[i];
        if c < '0' || c > '9' {
            return None;
        }
        proof {
            assert(t@.take(i + 1).drop_last() =~= t@.take(i as int));
            assert(t@.take(i + 1).last() == t@[i as int]);
            lemma_digits_val_bound(t@.take(i + 1));
        }
        val = val * 10 + (c as u32 - 48);
        i = i + 1;
    }
    proof {
        assert(t@.take(n as int) =~= t@);
    }
    if val > 255 {
        return None;
    }
    Some(val as u8)
}

/// Reads a digit run as a prefix length.
pub fn parse_prefix(t: &Vec<char>) -> (r: Option<u8>)
    ensures
        r is Some <==> valid_prefix_part(t@),
        r is Some ==> r->0 == digits_val(t@),
{
    match parse_octet(t) {
        Some(v) => {
            if t.len() <= 2 && v <= 32 {
                Some(v)
            } else {
                None
            }
        },
        None => {
            proof {
                if valid_prefix_part(t@) {
                    assert(digits_val(t@) <= 32 < 256);
                    assert(valid_octet(t@));
                }
            }
            None
        },
    }
}

/// Four valid octets separated by dots.
pub open spec fn valid_ipv4_parts(ps: Seq<Seq<char>>) -> bool {
    &&& ps.len() == 4
    &&& valid_octet(ps[0])
    &&& valid_octet(ps[1])
    &&& valid_octet(ps[2])
    &&& valid_octet(ps[3])
}

/// The address denoted by four valid octet runs.
pub open spec fn spec_ipv4_value(ps: Seq<Seq<char>>) -> Ipv4Addr {
    Ipv4Addr {
        bits: (digits_val(ps[0]) * 0x1000000 + digits_val(ps[1]) * 0x10000 + digits_val(ps[2])
            * 0x100 + digits_val(ps[3])) as u32,
    }
}

/// The address denoted by `s`, if `s` is a well-formed dotted-quad literal.
pub open spec fn spec_parse_ipv4(s: Seq<char>) -> Option<Ipv4Addr> {
    let ps = split_on(s, '.');
    if valid_ipv4_parts(ps) {
        Some(spec_ipv4_value(ps))
    } else {
        None
    }
}

/// Reads a dotted-quad IPv4 address literal.
pub fn parse_ipv4_chars(t: &Vec<char>) -> (r: Option<Ipv4Addr>)
    ensures
        r == spec_parse_ipv4(t@),
{
    let parts = split_vec(t, '.');
    let ghost ps = split_on(t@, '.');
    if parts.len() != 4 {
        return None;
    }
    let o0 = match parse_octet(&parts[0]) {
        Some(v) => v,
        None => {
            return None;
        },
    };
    let o1 = match parse_octet(&parts[1]) {
        Some(v) => v,
        None => {
            return None;
        },
    };
    let o2 = match parse_octet(&parts[2]) {
        Some(v) => v,
        None => {
            return None;
        },
    };
    let o3 = match parse_octet(&parts[3]) {
        Some(v) => v,
        None => {
            return None;
        },
    };
    let r = Ipv4Addr::from_octets(o0, o1, o2, o3);
    proof {
        lemma_digits_val_bound(ps[0]);
        lemma_digits_val_bound(ps[1]);
        lemma_digits_val_bound(ps[2]);
        lemma_digits_val_bound(ps[3]);
    }
    Some(r)
}

/// The network denoted by `s`, if `s` is a well-formed CIDR literal: a
/// dotted-quad address, one slash, and a prefix length.
pub open spec fn spec_parse_network(s: Seq<char>) -> Option<Ipv4Network> {
    let ps = split_on(s, '/');
    if ps.len() == 2 {
        match spec_parse_ipv4(ps[0]) {
            Some(a) => {
                if valid_prefix_part(ps[1]) {
                    Some(Ipv4Network { addr: a, prefix: digits_val(ps[1]) as u8 })
                } else {
                    None
                }
            },
            None => None,
        }
    } else {
        None
    }
}

/// A parsed network literal is well formed: its prefix length is at most 32.
pub proof fn lemma_parse_network_wf(s: Seq<char>)
    ensures
        spec_parse_network(s) is Some ==> spec_parse_network(s)->0.wf(),
{
    let ps = split_on(s, '/');
    if spec_parse_network(s) is Some {
        lemma_digits_val_two(ps[1]);
    }
}

/// Reads a CIDR network literal.
pub fn parse_network_chars(t: &Vec<char>) -> (r: Option<Ipv4Network>)
    ensures
        r == spec_parse_network(t@),
        r is Some ==> r->0.wf(),
{
    proof {
        lemma_parse_network_wf(t@);
    }
    let parts = split_vec(t, '/');
    if parts.len() != 2 {
        return None;
    }
    let addr = match parse_ipv4_chars(&parts[0]) {
        Some(a) => a,
        None => {
            return None;
        },
    };
    let prefix = match parse_prefix(&parts[1]) {
        Some(p) => p,
        None => {
            return None;
        },
    };
    proof {
        lemma_digits_val_two(split_on(t@, '/')[1]);
    }
    Some(Ipv4Network { addr, prefix })
}

/// Reads a dotted-quad IPv4 address literal from a string.
pub fn parse_ipv4(s: &str) -> (r: Option<Ipv4Addr>)
    ensures
        r == spec_parse_ipv4(s@),
{
    let cs = chars_of(s);
    parse_ipv4_chars(&cs)
}

/// Reads a CIDR network literal from a string.
pub fn parse_network(s: &str) -> (r: Option<Ipv4Network>)
    ensures
        r == spec_parse_network(s@),
        r is Some ==> r->0.wf(),
{
    let cs = chars_of(s);
    parse_network_chars(&cs)
}

/// A comment line starts with the comment marker.
pub open spec fn is_comment_line(l: Seq<char>) -> bool {
    l.len() > 0 && l[0] == '#'
}

/// A blank line holds no characters.
pub open spec fn is_blank_line(l: Seq<char>) -> bool {
    l.len() == 0
}

/// A data line is neither a comment nor blank; it must parse as a network
/// or an address.
pub open spec fn is_data_line(l: Seq<char>) -> bool {
    !is_comment_line(l) && !is_blank_line(l)
}

/// A line holding a slash is classified as a network literal.
pub open spec fn is_network_line(l: Seq<char>) -> bool {
    contains_char(l, '/')
}

/// Does the data line parse under its classification?
pub open spec fn line_ok(l: Seq<char>) -> bool {
    if is_network_line(l) {
        spec_parse_network(l) is Some
    } else {
        spec_parse_ipv4(l) is Some
    }
}

/// Is `l` a comment line?
pub fn line_is_comment(l: &str) -> (r: bool)
    ensures
        r == is_comment_line(l@),
{
    l.unicode_len() > 0 && l.get_char(0) == '#'
}

/// Is `l` blank?
pub fn line_is_blank(l: &str) -> (r: bool)
    ensures
        r == is_blank_line(l@),
{
    l.unicode_len() == 0
}

/// The fixed lead of a category header line.
pub open spec fn header_prefix() -> Seq<char> {
    seq![
        '#',
        ' ',
        'C',
        'a',
        't',
        'e',
        'g',
        'o',
        'r',
        'y',
        ' ',
        ' ',
        ' ',
        ' ',
        ' ',
        ' ',
        ' ',
        ' ',
        ':',
        ' ',
    ]
}

/// Does `l` carry the category header key?
pub open spec fn is_header_line(l: Seq<char>) -> bool {
    l.len() >= 20 && l.take(20) == header_prefix()
}

/// The category value a header line carries: the rest of the line, trimmed.
pub open spec fn header_value(l: Seq<char>) -> Seq<char> {
    trim(l.skip(20))
}

/// How many lines the leading comment block holds.
pub open spec fn leading_comment_len(ls: Seq<Seq<char>>) -> int
    decreases ls.len(),
{
    if ls.len() == 0 || !is_comment_line(ls[0]) {
        0
    } else {
        1 + leading_comment_len(ls.drop_first())
    }
}

/// The leading comment block is the longest comment-only prefix.
pub proof fn lemma_leading_comment_len(ls: Seq<Seq<char>>)
    ensures
        0 <= leading_comment_len(ls) <= ls.len(),
        forall|j: int|
            0 <= j < leading_comment_len(ls) ==> is_comment_line(#[trigger] ls[j]),
        leading_comment_len(ls) < ls.len() ==> !is_comment_line(ls[leading_comment_len(ls)]),
    decreases ls.len(),
{
    if ls.len() > 0 && is_comment_line(ls[0]) {
        lemma_leading_comment_len(ls.drop_first());
        assert forall|j: int| 0 <= j < leading_comment_len(ls) implies is_comment_line(
            #[trigger] ls[j],
        ) by {
            if j > 0 {
                assert(is_comment_line(ls.drop_first()[j - 1]));
            }
        }
    }
}

/// The header lines among the leading comment block.
pub open spec fn header_lines(ls: Seq<Seq<char>>) -> Seq<Seq<char>> {
    ls.take(leading_comment_len(ls)).filter(|l: Seq<char>| is_header_line(l))
}

/// The category a feed falls back to without exactly one header line.
pub open spec fn other_category() -> Seq<char> {
    seq!['o', 't', 'h', 'e', 'r']
}

/// The category of a feed: the value of its single header line, or
/// "other" when the leading comment block has zero or several header lines.
pub open spec fn spec_category(ls: Seq<Seq<char>>) -> Seq<char> {
    if header_lines(ls).len() == 1 {
        header_value(header_lines(ls)[0])
    } else {
        other_category()
    }
}

/// The category falls back to the literal "other" whenever the leading
/// comment block holds zero or several header lines; only a single header
/// line supplies its own trimmed value.
pub proof fn lemma_category_default(ls: Seq<Seq<char>>)
    ensures
        header_lines(ls).len() != 1 ==> spec_category(ls) == other_category(),
        header_lines(ls).len() == 1 ==> spec_category(ls) == header_value(header_lines(ls)[0]),
{
}

/// The index of the last occurrence of `c` in `s`, or -1.
pub open spec fn find_last_char(s: Seq<char>, c: char) -> int
    decreases s.len(),
{
    if s.len() == 0 {
        -1
    } else if s.last() == c {
        s.len() - 1
    } else {
        find_last_char(s.drop_last(), c)
    }
}

/// What the last-occurrence index means.
pub proof fn lemma_find_last_char(s: Seq<char>, c: char)
    ensures
        -1 <= find_last_char(s, c) < s.len(),
        find_last_char(s, c) >= 0 ==> s[find_last_char(s, c)] == c,
        forall|j: int| find_last_char(s, c) < j < s.len() ==> #[trigger] s[j] != c,
    decreases s.len(),
{
    if s.len() > 0 && s.last() != c {
        lemma_find_last_char(s.drop_last(), c);
        assert forall|j: int| find_last_char(s, c) < j < s.len() implies #[trigger] s[j] != c by {
            if j < s.len() - 1 {
                assert(s.drop_last()[j] != c);
            }
        }
    }
}

/// The last piece of a split is everything after the last separator.
pub proof fn lemma_split_on_last(s: Seq<char>, sep: char)
    ensures
        split_on(s, sep).last() == s.skip(find_last_char(s, sep) + 1),
    decreases s.len(),
{
    lemma_split_on_len(s, sep);
    if s.len() == 0 {
        assert(s.skip(0) =~= s);
    } else if s.last() == sep {
        assert(s.skip(s.len() as int) =~= Seq::<char>::empty());
    } else {
        lemma_split_on_last(s.drop_last(), sep);
        lemma_split_on_len(s.drop_last(), sep);
        lemma_find_last_char(s.drop_last(), sep);
        let f = find_last_char(s.drop_last(), sep);
        assert(s.drop_last().skip(f + 1).push(s.last()) =~= s.skip(f + 1));
    }
}

/// The feed name a path denotes: the base name, with the directory part
/// and the extension removed.
pub open spec fn spec_file_stem(path: Seq<char>) -> Seq<char> {
    let base = split_on(path, '/').last();
    let dot = find_last_char(base, '.');
    if dot > 0 {
        base.take(dot)
    } else {
        base
    }
}

/// Finds the last occurrence of `c` in `s`.
pub fn find_last_in_str(s: &str, c: char) -> (r: Option<usize>)
    ensures
        r is Some ==> r->0 == find_last_char(s@, c),
        r is None ==> find_last_char(s@, c) == -1,
{
    let n: usize = s.unicode_len();
    proof {
        assert(s@.take(n as int) =~= s@);
    }
    let mut j: usize = n;
    while j > 0
        invariant
            j <= n == s@.len(),
            find_last_char(s@, c) == find_last_char(s@.take(j as int), c),
        decreases j,
    {
        proof {
            assert(s@.take(j as int).drop_last() =~= s@.take(j - 1));
            assert(s@.take(j as int).last() == s@[j - 1]);
        }
        if s.get_char(j - 1) == c {
            return Some(j - 1);
        }
        j = j - 1;
    }
    None
}

/// Computes the feed name a path denotes.
pub fn file_stem_of(path: &str) -> (r: String)
    ensures
        r@ == spec_file_stem(path@),
{
    let n: usize = path.unicode_len();
    proof {
        lemma_split_on_last(path@, '/');
        lemma_find_last_char(path@, '/');
    }
    let base_start: usize = match find_last_in_str(path, '/') {
        Some(f) => f + 1,
        None => 0,
    };
    let base = path.substring_char(base_start, n);
    proof {
        assert(base@ =~= path@.skip(base_start as int));
        lemma_find_last_char(base@, '.');
    }
    match find_last_in_str(base, '.') {
        Some(d) => {
            if d > 0 {
                let r = base.substring_char(0, d);
                proof {
                    assert(r@ =~= base@.take(d as int));
                }
                r.to_owned()
            } else {
                base.to_owned()
            }
        },
        None => base.to_owned(),
    }
}

/// Is `l` a category header line?
pub fn line_is_header(l: &str) -> (r: bool)
    ensures
        r == is_header_line(l@),
{
    let p = "# Category        : ";
    proof {
        reveal_strlit("# Category        : ");
        assert(p@ =~= header_prefix());
    }
    let n: usize = l.unicode_len();
    if n < 20 {
        return false;
    }
    let mut i: usize = 0;
    while i < 20
        invariant
            i <= 20 <= n == l@.len(),
            p@ == header_prefix(),
            forall|j: int| 0 <= j < i ==> l@[j] == header_prefix()[j],
        decreases 20 - i,
    {
        if l.get_char(i) != p.get_char(i) {
            proof {
                assert(l@.take(20)[i as int] == l@[i as int]);
            }
            return false;
        }
        i = i + 1;
    }
    proof {
        assert(l@.take(20) =~= header_prefix());
    }
    true
}

/// Extracts the trimmed category value of a header line.
pub fn header_value_of(l: &str) -> (r: String)
    requires
        is_header_line(l@),
    ensures
        r@ == header_value(l@),
{
    let n: usize = l.unicode_len();
    let rest = l.substring_char(20, n);
    proof {
        assert(rest@ =~= l@.skip(20));
    }
    trim_str(rest)
}

/// The views of a vector of lines.
pub open spec fn line_views(lines: Seq<String>) -> Seq<Seq<char>> {
    lines.map_values(|l: String| l@)
}

/// Computes the category of a feed from its lines: scans the leading
/// comment block for header lines and takes the single header's trimmed
/// value, falling back to "other".
pub fn category_of_lines(lines: &Vec<String>) -> (c: String)
    ensures
        c@ == spec_category(line_views(lines@)),
{
    let ghost ls = line_views(lines@);
    proof {
        lemma_leading_comment_len(ls);
        reveal(Seq::filter);
        assert(ls.take(0).filter(|l: Seq<char>| is_header_line(l)) =~= Seq::<Seq<char>>::empty());
    }
    let n: usize = lines.len();
    let mut i: usize = 0;
    let mut count: usize = 0;
    let mut value: Option<String> = None;
    while i < n && line_is_comment(lines[i].as_str())
        invariant
            i <= n == lines@.len(),
            ls == line_views(lines@),
            forall|j: int| 0 <= j < i ==> is_comment_line(#[trigger] ls[j]),
            count == ls.take(i as int).filter(|l: Seq<char>| is_header_line(l)).len(),
            count >= 1 <==> value is Some,
            count >= 1 ==> value->0@ == header_value(
                ls.take(i as int).filter(|l: Seq<char>| is_header_line(l))[0],
            ),
        decreases n - i,
    {
        let ghost pref = ls.take(i as int).filter(|l: Seq<char>| is_header_line(l));
        proof {
            reveal(Seq::filter);
            assert(ls.take(i + 1).drop_last() =~= ls.take(i as int));
            assert(ls.take(i + 1).last() == ls[i as int]);
        }
        if line_is_header(lines[i].as_str()) {
            proof {
                assert(ls.take(i + 1).filter(|l: Seq<char>| is_header_line(l)) =~= pref.push(
                    ls[i as int],
                ));
            }
            if count == 0 {
                value = Some(header_value_of(lines[i].as_str()));
            }
            count = count + 1;
        } else {
            proof {
                assert(ls.take(i + 1).filter(|l: Seq<char>| is_header_line(l)) =~= pref);
            }
        }
        i = i + 1;
    }
    proof {
        assert(i as int == leading_comment_len(ls)) by {
            lemma_leading_comment_len(ls);
            if (i as int) < leading_comment_len(ls) {
                assert(is_comment_line(ls[i as int]));
            }
            if (i as int) > leading_comment_len(ls) {
                assert(is_comment_line(ls[leading_comment_len(ls)]));
            }
        }
        assert(header_lines(ls) == ls.take(i as int).filter(|l: Seq<char>| is_header_line(l)));
    }
    if count == 1 {
        match value {
            Some(v) => v,
            None => String::new(),
        }
    } else {
        let c = "other";
        proof {
            reveal_strlit("other");
            assert(c@ =~= other_category());
        }
        c.to_owned()
    }
}

/// The network values of the data lines classified as networks, in file
/// order.
pub open spec fn spec_net_values(ls: Seq<Seq<char>>) -> Seq<Ipv4Network> {
    ls.filter(|l: Seq<char>| is_data_line(l) && is_network_line(l)).map_values(
        |l: Seq<char>| spec_parse_network(l)->0,
    )
}

/// The address values of the data lines classified as addresses, in file
/// order.
pub open spec fn spec_ip_values(ls: Seq<Seq<char>>) -> Seq<Ipv4Addr> {
    ls.filter(|l: Seq<char>| is_data_line(l) && !is_network_line(l)).map_values(
        |l: Seq<char>| spec_parse_ipv4(l)->0,
    )
}

/// Do all data lines parse under their classification?
pub open spec fn all_data_ok(ls: Seq<Seq<char>>) -> bool {
    forall|i: int| 0 <= i < ls.len() && is_data_line(#[trigger] ls[i]) ==> line_ok(ls[i])
}

/// The index of the first data line that fails to parse, or -1.
pub open spec fn first_bad_line(ls: Seq<Seq<char>>) -> int
    decreases ls.len(),
{
    if ls.len() == 0 {
        -1
    } else if is_data_line(ls[0]) && !line_ok(ls[0]) {
        0
    } else {
        let r = first_bad_line(ls.drop_first());
        if r < 0 {
            -1
        } else {
            1 + r
        }
    }
}

/// Every data line is classified into exactly one of the two value lists,
/// and none is dropped: the parsed networks and addresses together account
/// for all data lines of the file.
pub proof fn lemma_strict_classification(ls: Seq<Seq<char>>)
    ensures
        spec_net_values(ls).len() + spec_ip_values(ls).len() == ls.filter(
            |l: Seq<char>| is_data_line(l),
        ).len(),
    decreases ls.len(),
{
    reveal(Seq::filter);
    if ls.len() > 0 {
        lemma_strict_classification(ls.drop_last());
    }
}

/// What the first-bad-line index means.
pub proof fn lemma_first_bad_line(ls: Seq<Seq<char>>)
    ensures
        first_bad_line(ls) == -1 <==> all_data_ok(ls),
        first_bad_line(ls) >= 0 ==> {
            &&& first_bad_line(ls) < ls.len()
            &&& is_data_line(ls[first_bad_line(ls)])
            &&& !line_ok(ls[first_bad_line(ls)])
            &&& forall|j: int|
                0 <= j < first_bad_line(ls) && is_data_line(#[trigger] ls[j]) ==> line_ok(ls[j])
        },
    decreases ls.len(),
{
    if ls.len() > 0 {
        lemma_first_bad_line(ls.drop_first());
        let fb = first_bad_line(ls);
        if !(is_data_line(ls[0]) && !line_ok(ls[0])) {
            if first_bad_line(ls.drop_first()) == -1 {
                assert forall|i: int|
                    0 <= i < ls.len() && is_data_line(#[trigger] ls[i]) implies line_ok(ls[i]) by {
                    if i > 0 {
                        assert(ls.drop_first()[i - 1] == ls[i]);
                        assert(is_data_line(ls.drop_first()[i - 1]));
                    }
                }
            } else {
                assert(ls[fb] == ls.drop_first()[fb - 1]);
                assert(!all_data_ok(ls)) by {
                    assert(is_data_line(ls[fb]) && !line_ok(ls[fb]));
                }
                assert forall|j: int|
                    0 <= j < fb && is_data_line(#[trigger] ls[j]) implies line_ok(ls[j]) by {
                    if j > 0 {
                        assert(ls.drop_first()[j - 1] == ls[j]);
                        assert(is_data_line(ls.drop_first()[j - 1]));
                    }
                }
            }
        } else {
            assert(!all_data_ok(ls));
        }
    }
}

} // verus!
