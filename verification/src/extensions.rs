//! The file extensions that AutoFilm treats as videos and as companion files.
use vstd::prelude::*;

verus! {

/// Video extensions: a video becomes a `.strm` file.
pub open spec fn video_ext_list() -> Seq<Seq<char>> {
    seq![
        seq!['.', 'm', 'p', '4'],
        seq!['.', 'm', 'k', 'v'],
        seq!['.', 'f', 'l', 'v'],
        seq!['.', 'a', 'v', 'i'],
        seq!['.', 'w', 'm', 'v'],
        seq!['.', 't', 's'],
        seq!['.', 'r', 'm', 'v', 'b'],
        seq!['.', 'w', 'e', 'b', 'm'],
        seq!['.', 'm', 'p', 'g'],
        seq!['.', 'm', '2', 't', 's'],
    ]
}

/// Subtitle extensions.
pub open spec fn subtitle_ext_list() -> Seq<Seq<char>> {
    seq![
        seq!['.', 'a', 's', 's'],
        seq!['.', 's', 'r', 't'],
        seq!['.', 's', 's', 'a'],
        seq!['.', 's', 'u', 'b'],
    ]
}

/// Image extensions.
pub open spec fn image_ext_list() -> Seq<Seq<char>> {
    seq![
        seq!['.', 'p', 'n', 'g'],
        seq!['.', 'j', 'p', 'g'],
    ]
}

/// Metadata extensions.
pub open spec fn nfo_ext_list() -> Seq<Seq<char>> {
    seq![seq!['.', 'n', 'f', 'o']]
}

/// `e` is a video extension.
pub open spec fn is_video_ext(e: Seq<char>) -> bool {
    video_ext_list().contains(e)
}

/// The views of a list of character vectors.
pub open spec fn views(list: Seq<Vec<char>>) -> Seq<Seq<char>> {
    list.map_values(|x: Vec<char>| x@)
}

/// Whether two character vectors are equal.
pub fn chars_eq(a: &Vec<char>, b: &Vec<char>) -> (r: bool)
    ensures
        r == (a@ == b@),
{
    if a.len() != b.len() {
        return false;
    }
    let mut i: usize = 0;
    while i < a.len()
        invariant
            i <= a@.len() == b@.len(),
            forall|j: int| 0 <= j < i ==> a@[j] == b@[j],
        decreases a.len() - i,
    {
        if a[i] != b[i] {
            return false;
        }
        i += 1;
    }
    assert(a@ =~= b@);
    true
}

/// Whether `e` is one of the entries of `list`.
pub fn member(list: &Vec<Vec<char>>, e: &Vec<char>) -> (r: bool)
    ensures
        r == views(list@).contains(e@),
{
    let mut i: usize = 0;
    while i < list.len()
        invariant
            i <= list@.len(),
            forall|j: int| 0 <= j < i ==> list@[j]@ != e@,
        decreases list.len() - i,
    {
        if chars_eq(&list[i], e) {
            assert(views(list@)[i as int] == e@);
            return true;
        }
        i += 1;
    }
    assert forall|j: int| 0 <= j < views(list@).len() implies views(list@)[j] != e@ by {
        assert(views(list@)[j] == list@[j]@);
    }
    false
}

/// The video extensions.
pub fn video_exts() -> (r: Vec<Vec<char>>)
    ensures
        views(r@) == video_ext_list(),
{
    let r = vec![
        vec!['.', 'm', 'p', '4'],
        vec!['.', 'm', 'k', 'v'],
        vec!['.', 'f', 'l', 'v'],
        vec!['.', 'a', 'v', 'i'],
        vec!['.', 'w', 'm', 'v'],
        vec!['.', 't', 's'],
        vec!['.', 'r', 'm', 'v', 'b'],
        vec!['.', 'w', 'e', 'b', 'm'],
        vec!['.', 'm', 'p', 'g'],
        vec!['.', 'm', '2', 't', 's'],
    ];
    assert(views(r@) =~= video_ext_list());
    r
}

/// The subtitle extensions.
pub fn subtitle_exts() -> (r: Vec<Vec<char>>)
    ensures
        views(r@) == subtitle_ext_list(),
{
    let r = vec![
        vec!['.', 'a', 's', 's'],
        vec!['.', 's', 'r', 't'],
        vec!['.', 's', 's', 'a'],
        vec!['.', 's', 'u', 'b'],
    ];
    assert(views(r@) =~= subtitle_ext_list());
    r
}

/// The image extensions.
pub fn image_exts() -> (r: Vec<Vec<char>>)
    ensures
        views(r@) == image_ext_list(),
{
    let r = vec![vec!['.', 'p', 'n', 'g'], vec!['.', 'j', 'p', 'g']];
    assert(views(r@) =~= image_ext_list());
    r
}

/// The metadata extensions.
pub fn nfo_exts() -> (r: Vec<Vec<char>>)
    ensures
        views(r@) == nfo_ext_list(),
{
    let r = vec![vec!['.', 'n', 'f', 'o']];
    assert(views(r@) =~= nfo_ext_list());
    r
}

/// Whether `e` is a video extension.
pub fn is_video_extension(e: &Vec<char>) -> (r: bool)
    ensures
        r == is_video_ext(e@),
{
    let list = video_exts();
    member(&list, e)
}

} // verus!
