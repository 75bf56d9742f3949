use vstd::prelude::*;

verus! {

/// One track as extracted: its cells in scan order. The order is part of
/// the data, since the winding of a track is read along it.
#[derive(Clone, Debug)]
pub struct Particle {
    track: Vec<(usize, usize)>,
}

impl View for Particle {
    type V = Seq<(usize, usize)>;

    closed spec fn view(&self) -> Seq<(usize, usize)> {
        self.track@
    }
}

impl Particle {
    /// A record of `track`, kept as it is.
    pub fn new(track: Vec<(usize, usize)>) -> (p: Self)
        ensures
            p@ == track@,
    {
        Particle { track }
    }

    /// A copy of the track's cells, in their order.
    pub fn get_track(&self) -> (t: Vec<(usize, usize)>)
        ensures
            t@ == self@,
    {
        let mut t: Vec<(usize, usize)> = Vec::new();
        let mut i: usize = 0;
        while i < self.track.len()
            invariant
                0 <= i <= self.track@.len(),
                t@ == self.track@.take(i as int),
            decreases self.track@.len() - i,
        {
            t.push(self.track[i]);
            i = i + 1;
            proof {
                assert(t@ =~= self.track@.take(i as int));
            }
        }
        proof {
            assert(self.track@.take(self.track@.len() as int) =~= self.track@);
        }
        t
    }

    /// The number of cells in the track.
    pub fn size(&self) -> (n: usize)
        ensures
            n == self@.len(),
    {
        self.track.len()
    }
}

} // verus!
