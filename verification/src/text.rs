use vstd::prelude::*;
use vstd::string::*;

verus! {

/// What `char::to_uppercase` yields for one character: a sequence of
/// characters that depends on the character alone.
pub uninterp spec fn upper_of(c: char) -> Seq<char>;

/// Relies on char::to_uppercase: the Unicode uppercase mapping of one
/// character, a function of the character alone.
#[verifier::external_body]
fn upper_char(c: char) -> (r: String)
    ensures
        r@ == upper_of(c),
{
    c.to_uppercase().to_string()
}

/// Relies on String::push: appends exactly one character.
#[verifier::external_body]
pub(crate) fn push_char(s: &mut String, c: char)
    ensures
        final(s)@ == old(s)@ + seq![c],
{
    s.push(c);
}

/// A word separator inside a section name.
pub open spec fn is_sep(c: char) -> bool {
    c == '-' || c == '_' || c == ' '
}

/// Title form of a name suffix; `at_start` says whether the next character
/// begins a word. Separators become single spaces, a character that begins
/// a word is uppercased, every other character is kept.
pub open spec fn titleize_rec(s: Seq<char>, at_start: bool) -> Seq<char>
    decreases s.len(),
{
    if s.len() == 0 {
        Seq::empty()
    } else if is_sep(s[0]) {
        seq![' '] + titleize_rec(s.skip(1), true)
    } else if at_start {
        upper_of(s[0]) + titleize_rec(s.skip(1), false)
    } else {
        seq![s[0]] + titleize_rec(s.skip(1), false)
    }
}

/// The display title derived from a section name.
pub open spec fn spec_titleize(s: Seq<char>) -> Seq<char> {
    titleize_rec(s, true)
}

/// Turn a hyphen-, underscore- or space-separated name into a display
/// title: the first character of each word uppercased, each separator
/// shown as a single space.
pub fn titleize(s: &str) -> (r: String)
    ensures
        r@ == spec_titleize(s@),
{
    let n = s.unicode_len();
    let mut r = String::new();
    let mut at_start = true;
    let mut i: usize = 0;
    proof {
        assert(s@.skip(0) =~= s@);
        reveal_strlit(" ");
        assert(" "@ =~= seq![' ']);
    }
    while i < n
        invariant
            n == s@.len(),
            i <= n,
            spec_titleize(s@) == r@ + titleize_rec(s@.skip(i as int), at_start),
        decreases n - i,
    {
        proof {
            assert(s@.skip(i as int).skip(1) =~= s@.skip(i + 1));
        }
        let ghost prev = r@;
        let c = s.get_char(i);
        if c == '-' || c == '_' || c == ' ' {
            r.append(" ");
            proof {
                reveal_strlit(" ");
                assert(" "@ =~= seq![' ']);
                assert(r@ + titleize_rec(s@.skip(i + 1), true) =~= prev + titleize_rec(
                    s@.skip(i as int),
                    at_start,
                ));
            }
            at_start = true;
        } else if at_start {
            let u = upper_char(c);
            r.append(u.as_str());
            proof {
                assert(r@ + titleize_rec(s@.skip(i + 1), false) =~= prev + titleize_rec(
                    s@.skip(i as int),
                    at_start,
                ));
            }
            at_start = false;
        } else {
            push_char(&mut r, c);
            proof {
                assert(r@ + titleize_rec(s@.skip(i + 1), false) =~= prev + titleize_rec(
                    s@.skip(i as int),
                    at_start,
                ));
            }
        }
        i = i + 1;
    }
    proof {
        assert(s@.skip(n as int) =~= Seq::<char>::empty());
    }
    r
}

} // verus!
