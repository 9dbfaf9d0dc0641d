use vstd::prelude::*;

verus! {

/// How large a profile window opens: the whole screen, or two thirds of its
/// width beside the control panel.
#[derive(Clone, Copy, Debug, PartialEq, Eq, Structural)]
pub enum WindowSize {
    Full,
    Partial,
}

/// Whether `c` is alphabetic or numeric in Unicode's sense.
pub uninterp spec fn alphanumeric(c: char) -> bool;

/// Relies on char::is_alphanumeric: whether `c` is alphabetic or numeric;
/// the answer depends on `c` alone.
#[verifier::external_body]
fn is_alphanumeric(c: char) -> (r: bool)
    ensures
        r == alphanumeric(c),
{
    c.is_alphanumeric()
}

/// Relies on String::push: appends `c` to `s`.
#[verifier::external_body]
fn push_char(s: &mut String, c: char)
    ensures
        final(s)@ == old(s)@.push(c),
{
    s.push(c)
}

/// The character that stands for `c` in a window label, given whether `c` is
/// alphanumeric: itself if it is, or if it is one of `-`, `/`, `:`, `_`, and
/// `_` otherwise.
pub open spec fn label_char_spec(c: char, alnum: bool) -> char {
    if alnum || c == '-' || c == '/' || c == ':' || c == '_' {
        c
    } else {
        '_'
    }
}

/// The character that stands for `c` in a window label; `alnum` says whether
/// `c` is alphanumeric.
pub fn label_char(c: char, alnum: bool) -> (r: char)
    ensures
        r == label_char_spec(c, alnum),
{
    if alnum || c == '-' || c == '/' || c == ':' || c == '_' {
        c
    } else {
        '_'
    }
}

/// `name` made fit for a window label: each character that is not
/// alphanumeric and not one of `-`, `/`, `:`, `_` becomes `_`.
pub fn normalize_name(name: String) -> (r: String)
    ensures
        r@ == Seq::new(name@.len(), |i: int| label_char_spec(name@[i], alphanumeric(name@[i]))),
{
    let n: usize = name.as_str().unicode_len();
    let mut r = String::new();
    let mut i: usize = 0;
    while i < n
        invariant
            n == name@.len(),
            i <= n,
            r@ == Seq::new(i as nat, |j: int| label_char_spec(name@[j], alphanumeric(name@[j]))),
        decreases n - i,
    {
        let c = name.as_str().get_char(i);
        push_char(&mut r, label_char(c, is_alphanumeric(c)));
        proof {
            assert(r@ =~= Seq::new((i + 1) as nat, |j: int| label_char_spec(name@[j], alphanumeric(name@[j]))));
        }
        i = i + 1;
    }
    r
}

} // verus!
