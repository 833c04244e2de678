//! Checking a domain name typed by a user before it is queried.
use vstd::prelude::*;
use vstd::string::StrSliceExecFns;
use vstd::string::StringExecFns;
use vstd::utf8::encode_utf8;
use crate::text::push_char;
use crate::wire::{lemma_split_at_sep, lemma_split_without_sep, split_on};

verus! {

/// Whether `c` has the Unicode White_Space property: the 25 code points of
/// Unicode's PropList, tab to carriage return, space, U+0085, U+00A0,
/// U+1680, U+2000 to U+200A, U+2028, U+2029, U+202F, U+205F and U+3000.
pub open spec fn unicode_white_space(c: char) -> bool {
    ||| '\u{9}' <= c <= '\u{d}'
    ||| c == ' '
    ||| c == '\u{85}'
    ||| c == '\u{a0}'
    ||| c == '\u{1680}'
    ||| '\u{2000}' <= c <= '\u{200a}'
    ||| c == '\u{2028}'
    ||| c == '\u{2029}'
    ||| c == '\u{202f}'
    ||| c == '\u{205f}'
    ||| c == '\u{3000}'
}

/// An ASCII letter or digit.
pub open spec fn ascii_letter_or_digit(c: char) -> bool {
    ||| 'a' <= c <= 'z'
    ||| 'A' <= c <= 'Z'
    ||| '0' <= c <= '9'
}

/// Whether `c` is alphabetic or numeric in Unicode's sense (what
/// `char::is_alphanumeric` answers).
pub uninterp spec fn char_is_alphanumeric(c: char) -> bool;

/// Calls `char::is_alphanumeric`, which answers whether `c` has the Unicode
/// Alphabetic property or a numeric general category (Nd, Nl, No); its
/// answer is named `char_is_alphanumeric`. Two facts of the Unicode tables
/// are stated beside the name: among ASCII characters exactly the letters
/// and digits qualify, and no White_Space character does (those are all of
/// category Cc, Zs, Zl or Zp). Which other characters qualify is left to
/// the name.
#[verifier::external_body]
fn is_alphanumeric(c: char) -> (r: bool)
    ensures
        r == char_is_alphanumeric(c),
        (c as u32) < 0x80 ==> (r <==> ascii_letter_or_digit(c)),
        unicode_white_space(c) ==> !r,
{
    c.is_alphanumeric()
}

/// A character allowed inside a label: a letter, a digit or a hyphen. No
/// whitespace character is allowed.
pub open spec fn label_char_ok(c: char) -> bool {
    if (c as u32) < 0x80 {
        ascii_letter_or_digit(c) || c == '-'
    } else {
        !unicode_white_space(c) && char_is_alphanumeric(c)
    }
}

/// The first character of `s` that a label may not hold, if any.
pub open spec fn first_invalid(s: Seq<char>) -> Option<char>
    decreases s.len(),
{
    if s.len() == 0 {
        None
    } else if !label_char_ok(s[0]) {
        Some(s[0])
    } else {
        first_invalid(s.drop_first())
    }
}

pub open spec fn too_long_message() -> Seq<char> {
    "Invalid domain: exceeds maximum length of 253 characters"@
}

pub open spec fn empty_label_message() -> Seq<char> {
    "Invalid domain: empty label (consecutive dots are not allowed)"@
}

pub open spec fn long_label_message(label: Seq<char>) -> Seq<char> {
    "Invalid label \""@ + label + "\": exceeds maximum length of 63 characters"@
}

pub open spec fn hyphen_message(label: Seq<char>) -> Seq<char> {
    "Invalid label \""@ + label + "\": labels cannot start or end with a hyphen"@
}

pub open spec fn invalid_char_message(label: Seq<char>, c: char) -> Seq<char> {
    "Invalid label \""@ + label + "\": invalid character '"@ + seq![c]
        + "', only letters, digits, and hyphens are allowed"@
}

/// The verdict on one label: not empty, at most 63 bytes, no hyphen at
/// either end, only letters, digits and hyphens.
pub open spec fn check_label(label: Seq<char>) -> Result<(), Seq<char>> {
    if label.len() == 0 {
        Err(empty_label_message())
    } else if encode_utf8(label).len() > 63 {
        Err(long_label_message(label))
    } else if label[0] == '-' || label.last() == '-' {
        Err(hyphen_message(label))
    } else {
        match first_invalid(label) {
            Some(c) => Err(invalid_char_message(label, c)),
            None => Ok(()),
        }
    }
}

/// The verdict on the labels in order: the first one that fails decides.
pub open spec fn check_labels(ls: Seq<Seq<char>>) -> Result<(), Seq<char>>
    decreases ls.len(),
{
    if ls.len() == 0 {
        Ok(())
    } else {
        match check_label(ls[0]) {
            Err(e) => Err(e),
            Ok(()) => check_labels(ls.drop_first()),
        }
    }
}

/// The verdict on a domain name typed by a user: it must take at most 253
/// bytes, and every dot-separated label must pass, so whitespace anywhere
/// is refused. A single label, such as `localhost`, is left to the server
/// to resolve.
pub open spec fn domain_verdict(input: Seq<char>) -> Result<(), Seq<char>> {
    if encode_utf8(input).len() > 253 {
        Err(too_long_message())
    } else {
        check_labels(split_on(input, '.'))
    }
}

/// The verdict as a result that holds character sequences.
pub open spec fn verdict_view(r: Result<(), String>) -> Result<(), Seq<char>> {
    match r {
        Ok(()) => Ok(()),
        Err(s) => Err(s@),
    }
}

proof fn lemma_check_labels_front(l: Seq<char>, rest: Seq<Seq<char>>)
    ensures
        check_labels(seq![l] + rest) == (match check_label(l) {
            Err(e) => Err(e),
            Ok(()) => check_labels(rest),
        }),
{
    assert((seq![l] + rest).drop_first() =~= rest);
}

/// The error text `prefix`, the label, then `suffix`.
fn label_message(prefix: &str, label: &str, suffix: &str) -> (r: String)
    ensures
        r@ == prefix@ + label@ + suffix@,
{
    let mut m = String::from_str(prefix);
    m.append(label);
    m.append(suffix);
    m
}

/// Checks one label.
fn validate_label(label: &str) -> (r: Result<(), String>)
    ensures
        verdict_view(r) == check_label(label@),
{
    let n = label.unicode_len();
    if n == 0 {
        return Err(String::from_str("Invalid domain: empty label (consecutive dots are not allowed)"));
    }
    if label.as_bytes().len() > 63 {
        return Err(label_message("Invalid label \"", label, "\": exceeds maximum length of 63 characters"));
    }
    let first = label.get_char(0);
    let last = label.get_char(n - 1);
    if first == '-' || last == '-' {
        return Err(label_message("Invalid label \"", label, "\": labels cannot start or end with a hyphen"));
    }
    let mut j: usize = 0;
    assert(label@.skip(0) =~= label@);
    while j < n
        invariant
            n == label@.len(),
            j <= n,
            first_invalid(label@) == first_invalid(label@.skip(j as int)),
            label@.len() > 0,
            encode_utf8(label@).len() <= 63,
            label@[0] != '-',
            label@.last() != '-',
        decreases n - j,
    {
        let c = label.get_char(j);
        if !is_alphanumeric(c) && c != '-' {
            assert(label@.skip(j as int)[0] == c);
            assert(first_invalid(label@) == Some(c));
            let mut m = String::from_str("Invalid label \"");
            m.append(label);
            m.append("\": invalid character '");
            push_char(&mut m, c);
            m.append("', only letters, digits, and hyphens are allowed");
            assert(m@ =~= invalid_char_message(label@, c));
            return Err(m);
        }
        assert(label@.skip(j as int).drop_first() =~= label@.skip(j + 1));
        j = j + 1;
    }
    assert(label@.skip(n as int) =~= Seq::<char>::empty());
    Ok(())
}

/// Checks a domain name typed by a user: it must take at most 253 bytes, and
/// each dot-separated label must be non-empty, at most 63 bytes, free of
/// hyphens at either end and made only of letters, digits and hyphens, so
/// that whitespace anywhere is refused. The first failing check gives the
/// error text.
pub fn validate_input(input: &str) -> (r: Result<(), String>)
    ensures
        verdict_view(r) == domain_verdict(input@),
{
    let t = input;
    if t.as_bytes().len() > 253 {
        return Err(String::from_str("Invalid domain: exceeds maximum length of 253 characters"));
    }
    let n = t.unicode_len();
    let mut start: usize = 0;
    let mut i: usize = 0;
    assert(t@.skip(0) =~= t@);
    while i < n
        invariant
            n == t@.len(),
            start <= i <= n,
            forall|j: int| start <= j < i ==> t@[j] != '.',
            check_labels(split_on(t@, '.')) == check_labels(split_on(t@.skip(start as int), '.')),
            input@ == t@,
            encode_utf8(t@).len() <= 253,
        decreases n - i,
    {
        if t.get_char(i) == '.' {
            let label = t.substring_char(start, i);
            let checked = validate_label(label);
            proof {
                let rest = t@.skip(start as int);
                let k = i - start;
                assert(rest[k] == '.');
                lemma_split_at_sep(rest, '.', k);
                assert(rest.take(k) =~= label@);
                assert(!label@.contains('.')) by {
                    if label@.contains('.') {
                        let m = choose|m: int| 0 <= m < label@.len() && label@[m] == '.';
                        assert(t@[start + m] == '.');
                    }
                }
                lemma_split_without_sep(label@, '.');
                assert(rest.skip(k + 1) =~= t@.skip(i + 1));
                lemma_check_labels_front(label@, split_on(t@.skip(i + 1), '.'));
            }
            match checked {
                Err(e) => {
                    return Err(e);
                },
                Ok(()) => {},
            }
            start = i + 1;
        }
        i = i + 1;
    }
    let label = t.substring_char(start, n);
    proof {
        assert(t@.skip(start as int) =~= label@);
        assert(!label@.contains('.')) by {
            if label@.contains('.') {
                let m = choose|m: int| 0 <= m < label@.len() && label@[m] == '.';
                assert(t@[start + m] == '.');
            }
        }
        lemma_split_without_sep(label@, '.');
        lemma_check_labels_front(label@, Seq::empty());
        assert(seq![label@] + Seq::<Seq<char>>::empty() =~= seq![label@]);
    }
    validate_label(label)
}

} // verus!
