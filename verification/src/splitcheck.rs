//! Preflight check: is a gzip archive splittable?
//!
//! A prefix of the file is searched for gzip member boundaries. Each place that
//! looks like one is tried: what it decodes to has to start like a WARC record.

use std::io::{Cursor, Read};

use fastwarc::stream_io::gzip::GzipReader;
use vstd::prelude::*;

verus! {

/// Number of bytes of a file that are searched.
pub const SCAN_LIMIT: usize = 0x200_0000;

/// Number of compressed bytes that a candidate is tried on.
pub const VALIDATE_WINDOW: usize = 4096;

/// How far to go on behind a member. Members are never denser than this.
pub const MEMBER_STRIDE: usize = 128;

/// The first five bytes that `fastwarc`'s gzip reader decodes from
/// `compressed`; none where it fails or ends ahead of them.
pub uninterp spec fn gzip_lead(compressed: Seq<u8>) -> Option<Seq<u8>>;

/// `fastwarc::stream_io::gzip::GzipReader`, asked with `read_exact` for five
/// bytes: the result is named [`gzip_lead`], and depends on the compressed
/// bytes alone.
#[verifier::external_body]
fn read_gzip_lead(compressed: Vec<u8>) -> (lead: Option<[u8; 5]>)
    requires
        compressed@.len() <= VALIDATE_WINDOW,
    ensures
        gzip_lead(compressed@) == match lead {
            Some(bytes) => Some(bytes@),
            None => None,
        },
{
    let mut reader = GzipReader::new(Cursor::new(compressed));
    let mut lead = [0u8; 5];
    match reader.read_exact(&mut lead) {
        Ok(()) => Some(lead),
        Err(_) => None,
    }
}

/// How a WARC record starts: `WARC/`.
pub open spec fn warc_lead() -> Seq<u8> {
    seq![0x57u8, 0x41u8, 0x52u8, 0x43u8, 0x2fu8]
}

/// The bytes that a candidate at the front of `buf` is tried on.
pub open spec fn window(buf: Seq<u8>) -> Seq<u8> {
    if buf.len() <= VALIDATE_WINDOW {
        buf
    } else {
        buf.take(VALIDATE_WINDOW as int)
    }
}

/// Whether a gzip member at the front of `buf` starts like a WARC record.
pub open spec fn is_member(buf: Seq<u8>) -> bool {
    gzip_lead(window(buf)) == Some(warc_lead())
}

/// Whether the first decoded bytes start a WARC record.
pub fn is_warc_lead(lead: Option<[u8; 5]>) -> (starts: bool)
    ensures
        starts == (lead matches Some(bytes) && bytes@ == warc_lead()),
{
    match lead {
        Some(bytes) => {
            let starts: bool = bytes[0] == 0x57 && bytes[1] == 0x41 && bytes[2] == 0x52 && bytes[3]
                == 0x43 && bytes[4] == 0x2f;
            proof {
                if starts {
                    assert(bytes@ =~= warc_lead());
                } else {
                    assert(bytes@ != warc_lead()) by {
                        let lead = warc_lead();
                        assert(lead[0] == 0x57 && lead[1] == 0x41 && lead[2] == 0x52 && lead[3]
                            == 0x43 && lead[4] == 0x2f);
                    }
                }
            }
            starts
        },
        None => false,
    }
}

/// Whether the gzip member at the front of `buf` starts like a WARC record.
pub fn is_warc_gzip_member(buf: &[u8]) -> (member: bool)
    ensures
        member == is_member(buf@),
{
    let len: usize = buf.len();
    let size: usize = if len < VALIDATE_WINDOW {
        len
    } else {
        VALIDATE_WINDOW
    };
    let mut head: Vec<u8> = Vec::new();
    head.extend_from_slice(vstd::slice::slice_subrange(buf, 0, size));
    assert(head@ =~= window(buf@));
    is_warc_lead(read_gzip_lead(head))
}

/// Whether the three bytes that start a gzip member stand at `at`.
pub open spec fn is_magic(buf: Seq<u8>, at: int) -> bool {
    at + 3 <= buf.len() && buf[at] == 0x1f && buf[at + 1] == 0x8b && buf[at + 2] == 0x08
}

/// The first place from `from` on where a gzip member may start.
pub open spec fn next_magic(buf: Seq<u8>, from: int) -> Option<int>
    decreases buf.len() - from,
{
    if from + 3 > buf.len() {
        None
    } else if is_magic(buf, from) {
        Some(from)
    } else {
        next_magic(buf, from + 1)
    }
}

/// What a search has found.
pub struct Found {
    /// Candidates that are members which start like a WARC record.
    pub members: nat,
    /// Places that were tried.
    pub candidates: nat,
}

/// What a search finds from `from` on, on top of what it has found.
pub open spec fn found_from(buf: Seq<u8>, from: int, found: Found) -> Found
    decreases buf.len() + MEMBER_STRIDE - from,
    via found_from_decreases
{
    match next_magic(buf, from) {
        None => found,
        Some(at) => if is_member(buf.skip(at)) {
            found_from(
                buf,
                at + MEMBER_STRIDE,
                Found { members: found.members + 1, candidates: found.candidates + 1 },
            )
        } else {
            found_from(buf, at + 1, Found { candidates: found.candidates + 1, ..found })
        },
    }
}

#[via_fn]
proof fn found_from_decreases(buf: Seq<u8>, from: int, found: Found) {
    lemma_next_magic(buf, from);
}

proof fn lemma_next_magic(buf: Seq<u8>, from: int)
    ensures
        next_magic(buf, from) matches Some(at) ==> from <= at && is_magic(buf, at),
    decreases buf.len() - from,
{
    if from + 3 <= buf.len() && !is_magic(buf, from) {
        lemma_next_magic(buf, from + 1);
    }
}

/// A search for gzip members.
pub struct MemberScan {
    /// Where the search goes on.
    pos: usize,
    /// Candidates that are members which start like a WARC record.
    members: usize,
    /// Places that were tried.
    candidates: usize,
}

impl MemberScan {
    /// What has been found.
    pub closed spec fn found(&self) -> Found {
        Found { members: self.members as nat, candidates: self.candidates as nat }
    }

    /// Where the search goes on.
    pub closed spec fn position(&self) -> nat {
        self.pos as nat
    }

    /// No place is tried twice, and members are among what was tried.
    pub open spec fn wf(&self) -> bool {
        self.found().members <= self.found().candidates <= self.position()
    }

    /// A search from the start.
    pub fn new() -> (scan: Self)
        ensures
            scan.wf(),
            scan.position() == 0,
            scan.found() == (Found { members: 0, candidates: 0 }),
    {
        MemberScan { pos: 0, members: 0, candidates: 0 }
    }

    /// The next place to try, if there is one.
    pub fn next_candidate(&self, buf: &[u8]) -> (candidate: Option<usize>)
        ensures
            match candidate {
                Some(at) => next_magic(buf@, self.position() as int) == Some(at as int),
                None => next_magic(buf@, self.position() as int) is None,
            },
    {
        let len: usize = buf.len();
        if len < 3 || self.pos > len - 3 {
            return None;
        }
        let mut at: usize = self.pos;
        while at <= len - 3
            invariant
                3 <= len == buf@.len(),
                self.pos <= at <= len - 2,
                next_magic(buf@, self.pos as int) == next_magic(buf@, at as int),
            decreases len - at,
        {
            if buf[at] == 0x1f && buf[at + 1] == 0x8b && buf[at + 2] == 0x08 {
                return Some(at);
            }
            at = at + 1;
        }
        None
    }

    /// Takes note of a place that was tried, and goes on behind it.
    pub fn note(&mut self, candidate: usize, member: bool)
        requires
            old(self).wf(),
            old(self).position() <= candidate,
            candidate + MEMBER_STRIDE <= usize::MAX,
        ensures
            final(self).wf(),
            final(self).position() == candidate + if member {
                MEMBER_STRIDE as int
            } else {
                1
            },
            final(self).found() == (Found {
                members: old(self).found().members + if member {
                    1nat
                } else {
                    0nat
                },
                candidates: old(self).found().candidates + 1,
            }),
    {
        self.candidates = self.candidates + 1;
        if member {
            self.members = self.members + 1;
            self.pos = candidate + MEMBER_STRIDE;
        } else {
            self.pos = candidate + 1;
        }
    }
}

/// Searches a prefix of a file for gzip members; none where it does not start
/// like gzip.
pub fn scan_members(buf: &[u8]) -> (scan: Option<MemberScan>)
    requires
        buf@.len() + MEMBER_STRIDE <= usize::MAX,
    ensures
        is_scan_of(scan, buf@),
{
    let len: usize = buf.len();
    if len < 3 || buf[0] != 0x1f || buf[1] != 0x8b || buf[2] != 0x08 {
        return None;
    }
    let ghost expected = found_from(buf@, 0, Found { members: 0, candidates: 0 });
    let mut scan: MemberScan = MemberScan::new();
    loop
        invariant
            len == buf@.len(),
            len + MEMBER_STRIDE <= usize::MAX,
            is_magic(buf@, 0),
            scan.wf(),
            scan.position() <= len + MEMBER_STRIDE,
            found_from(buf@, scan.position() as int, scan.found()) == expected,
            expected == found_from(buf@, 0, Found { members: 0, candidates: 0 }),
        decreases len + MEMBER_STRIDE - scan.position(),
    {
        match scan.next_candidate(buf) {
            Some(at) => {
                proof {
                    lemma_next_magic(buf@, scan.position() as int);
                    assert(buf@.subrange(at as int, len as int) =~= buf@.skip(at as int));
                }
                let member: bool = is_warc_gzip_member(
                    vstd::slice::slice_subrange(buf, at, len),
                );
                scan.note(at, member);
            },
            None => {
                return Some(scan);
            },
        }
    }
}

/// Whether an archive can be split for a parallel parse.
#[derive(Clone, Copy, Debug, PartialEq, Eq, Structural)]
pub enum Verdict {
    /// It is not gzip.
    NotGzip,
    /// It has several members; so many candidates were rejected.
    Splittable {
        /// Members found.
        members: usize,
        /// Candidates that were no members.
        rejected: usize,
    },
    /// It is gzip, but hardly has members.
    Sequential {
        /// Members found.
        members: usize,
    },
}

/// The verdict on what a search has found; none where the file is not gzip. From
/// two members on, an archive can be split.
pub open spec fn judged(found: Option<Found>) -> Verdict {
    match found {
        None => Verdict::NotGzip,
        Some(found) => if found.members >= 2 {
            Verdict::Splittable {
                members: found.members as usize,
                rejected: (found.candidates - found.members) as usize,
            }
        } else {
            Verdict::Sequential { members: found.members as usize }
        },
    }
}

/// Whether a search of `buf` came to this: nothing where it does not start like
/// gzip, and else what is found from its start on.
pub open spec fn is_scan_of(scan: Option<MemberScan>, buf: Seq<u8>) -> bool {
    match scan {
        Some(scan) => {
            &&& is_magic(buf, 0)
            &&& scan.wf()
            &&& scan.found() == found_from(buf, 0, Found { members: 0, candidates: 0 })
        },
        None => !is_magic(buf, 0),
    }
}

/// What was found by a search, if there was one.
pub open spec fn found_by(scan: Option<MemberScan>) -> Option<Found> {
    match scan {
        Some(scan) => Some(scan.found()),
        None => None,
    }
}

/// Judges a search: from two members on, an archive can be split.
pub fn verdict(scan: &Option<MemberScan>) -> (verdict: Verdict)
    requires
        scan matches Some(scan) ==> scan.wf(),
    ensures
        verdict == judged(found_by(*scan)),
{
    match scan {
        None => Verdict::NotGzip,
        Some(scan) => if scan.members >= 2 {
            Verdict::Splittable { members: scan.members, rejected: scan.candidates - scan.members }
        } else {
            Verdict::Sequential { members: scan.members }
        },
    }
}

/// A candidate is tried on as many bytes as there are, up to 4096, and is a member
/// exactly where those decode to the letters `WARC/`.
pub proof fn law_candidate_is_tried_on_all_it_has(buf: Seq<u8>)
    ensures
        window(buf).is_prefix_of(buf),
        SCAN_LIMIT == 32 * 1024 * 1024,
        buf.len() <= 4096 ==> window(buf).len() == buf.len(),
        buf.len() > 4096 ==> window(buf).len() == 4096,
        is_member(buf) <==> gzip_lead(
            buf.take(
                if buf.len() <= 4096 {
                    buf.len() as int
                } else {
                    4096
                },
            ),
        ) == Some(seq![0x57u8, 0x41u8, 0x52u8, 0x43u8, 0x2fu8]),
{
    assert(buf.take(buf.len() as int) =~= buf);
}

/// What stands behind the window of a candidate does not matter.
pub proof fn law_candidate_is_judged_by_its_window(buf: Seq<u8>, other: Seq<u8>)
    requires
        buf.len() >= 4096,
        other.len() >= 4096,
        buf.take(4096) == other.take(4096),
    ensures
        is_member(buf) == is_member(other),
{
    assert(buf.take(buf.len() as int) =~= buf);
    assert(other.take(other.len() as int) =~= other);
}

/// A member may start exactly where the bytes 31, 139 and 8 stand; the next such
/// place is the first one, and where there is none, none is found.
pub proof fn law_next_place_is_the_first(buf: Seq<u8>, from: int)
    requires
        0 <= from,
    ensures
        forall|at: int|
            0 <= at ==> (#[trigger] is_magic(buf, at) <==> at + 3 <= buf.len() && buf[at] == 31
                && buf[at + 1] == 139 && buf[at + 2] == 8),
        match next_magic(buf, from) {
            Some(at) => from <= at && is_magic(buf, at) && forall|j: int|
                from <= j < at ==> !#[trigger] is_magic(buf, j),
            None => forall|j: int| from <= j ==> !#[trigger] is_magic(buf, j),
        },
    decreases buf.len() - from,
{
    if from + 3 <= buf.len() && !is_magic(buf, from) {
        law_next_place_is_the_first(buf, from + 1);
        assert forall|j: int| from <= j && next_magic(buf, from) is None implies !#[trigger] is_magic(
            buf,
            j,
        ) by {
            if j > from {
                assert(from + 1 <= j);
            }
        }
    }
}

/// How far a search goes on from a place that it has tried.
pub open spec fn step(buf: Seq<u8>, at: int) -> int {
    if is_member(buf.skip(at)) {
        128
    } else {
        1
    }
}

/// Whether a search from `from` tries exactly these places: the first one from
/// there on where a member may start, and then those that it tries from where it
/// goes on, until there is none. Behind a member it goes on 128 bytes further, and
/// else with the next byte.
pub open spec fn tries(buf: Seq<u8>, from: int, places: Seq<int>) -> bool
    decreases places.len(),
{
    if places.len() == 0 {
        forall|j: int| from <= j ==> !#[trigger] is_magic(buf, j)
    } else {
        &&& from <= places[0]
        &&& is_magic(buf, places[0])
        &&& forall|j: int| from <= j < places[0] ==> !#[trigger] is_magic(buf, j)
        &&& tries(buf, places[0] + step(buf, places[0]), places.drop_first())
    }
}

/// A search counts every place that it tries, and those among them that are
/// members: it misses no place but those right behind a member.
pub proof fn law_search_counts_what_it_tries(buf: Seq<u8>, from: int, found: Found) -> (places: Seq<
    int,
>)
    requires
        0 <= from,
    ensures
        tries(buf, from, places),
        found_from(buf, from, found).candidates == found.candidates + places.len(),
        found_from(buf, from, found).members == found.members + places.filter(
            |at: int| is_member(buf.skip(at)),
        ).len(),
    decreases buf.len() + MEMBER_STRIDE - from,
{
    let member = |at: int| is_member(buf.skip(at));
    law_next_place_is_the_first(buf, from);
    match next_magic(buf, from) {
        None => {
            let none = Seq::<int>::empty();
            reveal(Seq::filter);
            assert(none.filter(member).len() == 0);
            none
        },
        Some(at) => {
            let next = Found {
                members: if member(at) {
                    found.members + 1
                } else {
                    found.members
                },
                candidates: found.candidates + 1,
            };
            let behind = at + step(buf, at);
            let rest = law_search_counts_what_it_tries(buf, behind, next);
            let places = seq![at] + rest;
            assert(found_from(buf, from, found) == found_from(buf, behind, next));
            lemma_filter_first(at, rest, member);
            assert(places.drop_first() =~= rest);
            places
        },
    }
}

/// Filtering a sequence with one more in front.
proof fn lemma_filter_first(first: int, rest: Seq<int>, keep: spec_fn(int) -> bool)
    ensures
        (seq![first] + rest).filter(keep).len() == rest.filter(keep).len() + if keep(first) {
            1int
        } else {
            0int
        },
    decreases rest.len(),
{
    reveal(Seq::filter);
    let all = seq![first] + rest;
    if rest.len() == 0 {
        assert(all.drop_last() =~= Seq::<int>::empty());
        assert(all.drop_last().filter(keep).len() == 0);
        assert(all.last() == first);
    } else {
        lemma_filter_first(first, rest.drop_last(), keep);
        assert(all.drop_last() =~= seq![first] + rest.drop_last());
        assert(all.last() == rest.last());
    }
}

/// A file is judged by the places that a search of it tries: it is gzip exactly
/// where it starts with the bytes 31, 139 and 8; it can be split exactly where two
/// or more of the places are members; and what is reported is how many are, and how
/// many are not.
pub proof fn law_file_is_judged_by_its_members(
    buf: Seq<u8>,
    scan: Option<MemberScan>,
) -> (places: Seq<int>)
    requires
        is_scan_of(scan, buf),
        buf.len() <= usize::MAX,
    ensures
        judged(found_by(scan)) is NotGzip <==> !(buf.len() >= 3 && buf[0] == 31 && buf[1] == 139
            && buf[2] == 8),
        tries(buf, 0, places),
        ({
            let members = places.filter(|at: int| is_member(buf.skip(at))).len();
            scan is Some ==> {
                &&& judged(found_by(scan)) is Splittable <==> members >= 2
                &&& judged(found_by(scan)) is Sequential <==> members < 2
                &&& judged(found_by(scan)) matches Verdict::Splittable {
                    members: counted,
                    rejected,
                } ==> counted == members && rejected == places.len() - members
                &&& judged(found_by(scan)) matches Verdict::Sequential { members: counted }
                    ==> counted == members
            }
        }),
{
    let nothing = Found { members: 0, candidates: 0 };
    law_next_place_is_the_first(buf, 0);
    assert(is_magic(buf, 0) <==> buf.len() >= 3 && buf[0] == 31 && buf[1] == 139 && buf[2] == 8);
    let places = law_search_counts_what_it_tries(buf, 0, nothing);
    let member = |at: int| is_member(buf.skip(at));
    places.lemma_filter_len(member);
    lemma_places_are_few(buf, 0, places);
    assert(places.len() <= buf.len());
    places
}

/// A search tries no more places than there are bytes.
proof fn lemma_places_are_few(buf: Seq<u8>, from: int, places: Seq<int>)
    requires
        0 <= from,
        tries(buf, from, places),
    ensures
        places.len() > 0 ==> from + places.len() <= buf.len(),
    decreases places.len(),
{
    if places.len() > 0 {
        lemma_places_are_few(buf, places[0] + step(buf, places[0]), places.drop_first());
    }
}

} // verus!
