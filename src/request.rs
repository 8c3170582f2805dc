//! Block requests: a byte range of one piece, and their splitting into
//! wire-sized parts.

use vstd::prelude::*;

verus! {

/// A request for `length` bytes of piece `piece` from offset `offset`.
#[derive(Debug, Clone, Copy, PartialEq, Eq, Structural, Hash)]
pub struct Request {
    pub piece: usize,
    pub offset: usize,
    pub length: usize,
}

/// Splits a request into consecutive parts of at most `max_length` bytes.
pub struct RequestSplitIter {
    pub piece: usize,
    pub max_length: usize,
    /// Offset of the next part.
    pub start: usize,
    /// Offset just past the request.
    pub end: usize,
}

pub open spec fn min(a: int, b: int) -> int {
    if a < b {
        a
    } else {
        b
    }
}

impl Request {
    pub fn new(piece: usize, offset: usize, length: usize) -> (r: Request)
        ensures
            r == (Request { piece, offset, length }),
    {
        Request { piece: piece, offset: offset, length: length }
    }

    /// The parts of this request, each of at most `max_length` bytes, in order.
    pub fn split_request(&self, max_length: usize) -> (r: RequestSplitIter)
        requires
            self.offset + self.length <= usize::MAX,
        ensures
            r == (RequestSplitIter {
                piece: self.piece,
                max_length,
                start: self.offset,
                end: (self.offset + self.length) as usize,
            }),
    {
        RequestSplitIter {
            piece: self.piece,
            max_length: max_length,
            start: self.offset,
            end: self.offset + self.length,
        }
    }

    /// Whether both requests ask for a common byte of the same piece.
    pub fn intersects(&self, other: &Request) -> (r: bool)
        ensures
            r == (self.piece == other.piece && self.offset < other.offset + other.length
                && other.offset < self.offset + self.length),
    {
        self.piece == other.piece && (self.offset < other.offset || self.offset - other.offset
            < other.length) && (other.offset < self.offset || other.offset - self.offset
            < self.length)
    }
}

impl RequestSplitIter {
    /// The next part: from the current offset, `max_length` bytes or what is
    /// left of the request if that is less.
    pub fn next(&mut self) -> (r: Option<Request>)
        ensures
            old(self).start >= old(self).end ==> r is None && *final(self) == *old(self),
            old(self).start < old(self).end ==> {
                &&& r == Some(
                    Request {
                        piece: old(self).piece,
                        offset: old(self).start,
                        length: min(
                            old(self).end - old(self).start,
                            old(self).max_length as int,
                        ) as usize,
                    },
                )
                &&& *final(self) == (RequestSplitIter {
                    start: min(
                        old(self).start + old(self).max_length,
                        old(self).end as int,
                    ) as usize,
                    ..*old(self)
                })
            },
    {
        if self.start >= self.end {
            None
        } else {
            let start = self.start;
            let left = self.end - start;
            let len = if left < self.max_length {
                left
            } else {
                self.max_length
            };
            if left <= self.max_length {
                self.start = self.end;
            } else {
                self.start = self.start + self.max_length;
            }
            Some(Request::new(self.piece, start, len))
        }
    }
}

} // verus!
