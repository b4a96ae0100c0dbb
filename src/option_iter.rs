use vstd::prelude::*;

verus! {

/// Yields, a set number of times, the next element of an optional slice: `Some(Some(x))`
/// while the slice has elements left, `Some(None)` for each step without a slice or past
/// its end, then `None`. Meant to be zipped with other per-entity sequences.
pub struct OptionIter<'a, X> {
    opt: Option<&'a [X]>,
    pos: usize,
    end: usize,
    count: usize,
}

impl<'a, X> OptionIter<'a, X> {
    pub closed spec fn spec_opt(&self) -> Option<Seq<X>> {
        match self.opt {
            Some(s) => Some(s@),
            None => None,
        }
    }

    pub closed spec fn spec_pos(&self) -> usize {
        self.pos
    }

    pub closed spec fn spec_end(&self) -> usize {
        self.end
    }

    /// Steps left.
    pub closed spec fn spec_count(&self) -> usize {
        self.count
    }

    pub open spec fn wf(&self) -> bool {
        self.spec_pos() <= self.spec_end() && (self.spec_opt() matches Some(s) ==> self.spec_end() <= s.len())
    }

    /// Steps through the whole slice, `count` times.
    pub fn new(opt: Option<&'a [X]>, count: usize) -> (r: Self)
        ensures
            r.wf(),
            r.spec_opt() == (match opt {
                Some(s) => Some(s@),
                None => None::<Seq<X>>,
            }),
            r.spec_pos() == 0,
            r.spec_end() == (match opt {
                Some(s) => s@.len(),
                None => 0,
            }),
            r.spec_count() == count,
    {
        let end = match opt {
            Some(s) => s.len(),
            None => 0,
        };
        OptionIter { opt, pos: 0, end, count }
    }

    pub fn next(&mut self) -> (r: Option<Option<&'a X>>)
        requires
            old(self).wf(),
        ensures
            final(self).wf(),
            final(self).spec_opt() == old(self).spec_opt(),
            final(self).spec_end() == old(self).spec_end(),
            old(self).spec_count() == 0 ==> r.is_none() && *final(self) == *old(self),
            old(self).spec_count() > 0 ==> {
                &&& final(self).spec_count() == old(self).spec_count() - 1
                &&& match old(self).spec_opt() {
                    Some(s) => if old(self).spec_pos() < old(self).spec_end() {
                        &&& r matches Some(Some(x)) && *x == s[old(self).spec_pos() as int]
                        &&& final(self).spec_pos() == old(self).spec_pos() + 1
                    } else {
                        r == Some(None::<&X>) && final(self).spec_pos() == old(self).spec_pos()
                    },
                    None => r == Some(None::<&X>) && final(self).spec_pos() == old(self).spec_pos(),
                }
            },
    {
        if self.count == 0 {
            return None;
        }
        self.count = self.count - 1;
        match self.opt {
            Some(s) => {
                if self.pos < self.end {
                    let x = &s[self.pos];
                    self.pos = self.pos + 1;
                    Some(Some(x))
                } else {
                    Some(None)
                }
            },
            None => Some(None),
        }
    }
}

/// An `OptionIter` over the elements `start .. end` of an optional slice, one step per
/// position of the range.
pub fn option_iter_from_slice<'a, X>(opt: Option<&'a [X]>, start: usize, end: usize) -> (r: OptionIter<'a, X>)
    requires
        start <= end,
        opt matches Some(s) ==> end <= s@.len(),
    ensures
        r.wf(),
        r.spec_opt() == (match opt {
            Some(s) => Some(s@),
            None => None::<Seq<X>>,
        }),
        r.spec_count() == end - start,
        opt is Some ==> r.spec_pos() == start && r.spec_end() == end,
{
    match opt {
        Some(s) => OptionIter { opt, pos: start, end, count: end - start },
        None => OptionIter { opt, pos: 0, end: 0, count: end - start },
    }
}

} // verus!
