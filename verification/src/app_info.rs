//! Name, version and start-up banner of the application.
use vstd::prelude::*;
use crate::text::{chars_of, push_all, push_str, repeat};

verus! {

/// The application's name.
pub const APP_NAME: &'static str = "AutoFilm";

/// The application's version, as shown in the banner.
pub const APP_VERSION: &'static str = "v0.1.0";

/// `s` centred in `width` characters, padded with `fill` repeated: the
/// smaller half of the padding on the left.  A string at least `width`
/// characters long is returned as it is.
pub open spec fn centered(s: Seq<char>, width: nat, fill: Seq<char>) -> Seq<char> {
    if s.len() >= width {
        s
    } else {
        let padding = (width - s.len()) as nat;
        let left = padding / 2;
        repeat(fill, left) + s + repeat(fill, (padding - left) as nat)
    }
}

/// Centring a string between repeated fill strings.
pub trait Center {
    /// `self` centred in `width` characters, padded with `fill` repeated.
    fn center(&self, width: usize, fill: &str) -> String;
}

fn push_repeat(s: &mut String, fill: &Vec<char>, n: usize)
    ensures
        final(s)@ == old(s)@ + repeat(fill@, n as nat),
{
    let mut i: usize = 0;
    while i < n
        invariant
            i <= n,
            s@ == old(s)@ + repeat(fill@, i as nat),
        decreases n - i,
    {
        push_all(s, fill);
        i += 1;
        assert(repeat(fill@, i as nat) == repeat(fill@, (i - 1) as nat) + fill@);
        assert(s@ =~= old(s)@ + repeat(fill@, i as nat));
    }
}

/// `centered(s, width, fill)`.
pub fn center_str(s: &str, width: usize, fill: &str) -> (r: String)
    ensures
        r@ == centered(s@, width as nat, fill@),
{
    let chars = chars_of(s);
    let n = chars.len();
    let mut r = String::new();
    if n >= width {
        push_str(&mut r, s);
        assert(r@ =~= s@);
        return r;
    }
    let padding = width - n;
    let left = padding / 2;
    let right = padding - left;
    let f = chars_of(fill);
    push_repeat(&mut r, &f, left);
    push_all(&mut r, &chars);
    push_repeat(&mut r, &f, right);
    assert(r@ =~= centered(s@, width as nat, fill@));
    r
}

impl Center for str {
    fn center(&self, width: usize, fill: &str) -> (r: String)
        ensures
            r@ == centered(self@, width as nat, fill@),
    {
        center_str(self, width, fill)
    }
}

/// ` AutoFilm v0.1.0 `: the banner's title line before centring.
pub fn banner_title() -> (r: String)
    ensures
        r@ == seq![' '] + APP_NAME@ + seq![' '] + APP_VERSION@ + seq![' '],
{
    let mut r = String::new();
    r.push(' ');
    push_str(&mut r, APP_NAME);
    r.push(' ');
    push_str(&mut r, APP_VERSION);
    r.push(' ');
    r
}

} // verus!
