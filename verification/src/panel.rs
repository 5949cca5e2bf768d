//! Small presentation states computed by the core: the photo
//! scroller's neighbours and the point panel's label.

use vstd::prelude::*;

verus! {

/// The photo scroller: the photo on show and its neighbours within
/// the selection's photo list.
#[derive(Clone, Debug)]
pub struct PhotoScroll {
    /// The photo on show.
    pub photo: i32,
    /// The photo after it, if any.
    pub next: Option<i32>,
    /// The photo before it, if any.
    pub previous: Option<i32>,
    /// The way selection the photos belong to, as the free text it
    /// arrived in.
    pub way_ids: String,
}

/// The neighbour state after scanning the first `k` photos: each
/// occurrence of the shown photo overwrites the previous neighbour
/// (when it has one) and the next neighbour (when it has one).
pub open spec fn spec_neighbors_upto(photos: Seq<i32>, photo: i32, k: int) -> (Option<i32>, Option<
    i32,
>)
    decreases k,
{
    if k <= 0 {
        (None, None)
    } else {
        let (p, n) = spec_neighbors_upto(photos, photo, k - 1);
        let i = k - 1;
        (
            if photos[i] == photo && i > 0 {
                Some(photos[i - 1])
            } else {
                p
            },
            if photos[i] == photo && i < photos.len() - 1 {
                Some(photos[i + 1])
            } else {
                n
            },
        )
    }
}

/// The previous and next neighbours of the shown photo in the list.
pub open spec fn spec_photo_neighbors(photos: Seq<i32>, photo: i32) -> (Option<i32>, Option<i32>) {
    spec_neighbors_upto(photos, photo, photos.len() as int)
}

/// Finds the neighbours of the shown photo in the selection's photo
/// list: the entries just before and just after its occurrence.
pub fn photo_neighbors(photos: &Vec<i32>, photo: i32) -> (r: (Option<i32>, Option<i32>))
    ensures
        r == spec_photo_neighbors(photos@, photo),
{
    let mut previous: Option<i32> = None;
    let mut next: Option<i32> = None;
    let mut i: usize = 0;
    while i < photos.len()
        invariant
            0 <= i <= photos@.len(),
            (previous, next) == spec_neighbors_upto(photos@, photo, i as int),
        decreases photos@.len() - i,
    {
        if photos[i] == photo {
            if i > 0 {
                previous = Some(photos[i - 1]);
            }
            if i < photos.len() - 1 {
                next = Some(photos[i + 1]);
            }
        }
        i = i + 1;
    }
    (previous, next)
}

impl PhotoScroll {
    /// Builds the scroller state for the shown photo from the
    /// selection's photo list.
    pub fn build(photos: &Vec<i32>, photo: i32, way_ids: String) -> (r: PhotoScroll)
        ensures
            r.photo == photo,
            (r.previous, r.next) == spec_photo_neighbors(photos@, photo),
            r.way_ids == way_ids,
    {
        let (previous, next) = photo_neighbors(photos, photo);
        PhotoScroll { photo, next, previous, way_ids }
    }
}

/// The point panel: the label shown for a clicked point.
#[derive(Clone, Debug)]
pub struct PointPanel {
    /// The name of the nearest feature, or empty when none is known.
    pub name: String,
}

impl PointPanel {
    /// The panel for a lookup result: the found name, or the empty
    /// label when the lookup found nothing.
    pub fn from_name(name: Option<String>) -> (r: PointPanel)
        ensures
            match name {
                Some(n) => r.name == n,
                None => r.name@ == Seq::<char>::empty(),
            },
    {
        match name {
            Some(n) => PointPanel { name: n },
            None => PointPanel { name: String::new() },
        }
    }
}

} // verus!
