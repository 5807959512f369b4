//! The executable scanner.

use vstd::prelude::*;
use crate::model::{
    completes, delimited, emits, emitted, feed, footer_cursor, header_cursor, initial,
    lemma_emits_delimited, lemma_emitted_prefix, lemma_feed_count, lemma_feed_push,
    lemma_step_well_formed, step, well_formed, Phase, ScanState,
};
use crate::naming::{artifact_name, name_of};
use crate::paths::{join, joined};
use crate::signature::{header, matches_footer, matches_header};

verus! {

/// One extracted image, ready to be written.
#[derive(Debug, PartialEq, Eq)]
pub struct Artifact {
    /// Position of the image among those found by the scanner, from 1.
    pub ordinal: u32,
    /// File name derived from the ordinal.
    pub name: String,
    /// Path of the file in the scanner's output directory.
    pub dest: String,
    /// Content of the image: header, body, footer pattern and checksum.
    pub bytes: Vec<u8>,
}

impl Artifact {
    /// The artifact is the `ordinal`-th image, holds `payload`, and is named
    /// and placed under `dir` accordingly.
    pub open spec fn describes(&self, ordinal: nat, payload: Seq<u8>, dir: Seq<char>) -> bool {
        &&& self.ordinal == ordinal
        &&& self.name@ == name_of(ordinal)
        &&& self.dest@ == joined(dir, name_of(ordinal))
        &&& self.bytes@ == payload
    }
}

/// A scanner for PNG images in a stream of bytes.
#[derive(Debug)]
pub struct PngSearch {
    file_buffer: Vec<u8>,
    png_count: u32,
    header_idx: usize,
    footer_idx: usize,
    out_dir: String,
}

impl View for PngSearch {
    type V = ScanState;

    closed spec fn view(&self) -> ScanState {
        ScanState {
            phase: if self.header_idx < 8 {
                Phase::SeekingHeader { matched: self.header_idx as nat }
            } else if self.footer_idx < 8 {
                Phase::SeekingFooter { matched: self.footer_idx as nat }
            } else {
                Phase::CapturingChecksum { captured: (self.footer_idx - 8) as nat }
            },
            buffer: self.file_buffer@,
            count: self.png_count as nat,
        }
    }
}

impl PngSearch {
    /// The directory under which the artifacts are placed.
    pub closed spec fn destination(&self) -> Seq<char> {
        self.out_dir@
    }

    /// The two cursors are in range, and only one of them is in use.
    pub closed spec fn cursors_in_range(&self) -> bool {
        &&& self.header_idx <= 8
        &&& self.footer_idx < 12
        &&& self.header_idx < 8 ==> self.footer_idx == 0
    }

    /// The invariant of a scanner: the cursors are in range, the buffer
    /// agrees with them, and the count fits its type.
    pub open spec fn wf(&self) -> bool {
        &&& self.cursors_in_range()
        &&& well_formed(self@)
        &&& self@.count <= u32::MAX
    }

    /// The number of artifacts handed out so far.
    pub fn png_count(&self) -> (count: u32)
        ensures
            count == self@.count,
    {
        self.png_count
    }

    /// The directory under which the artifacts are placed.
    pub fn out_dir(&self) -> (dir: &str)
        ensures
            dir@ == self.destination(),
    {
        self.out_dir.as_str()
    }

    /// The bytes of the candidate that is being read.
    pub fn file_buffer(&self) -> (bytes: &[u8])
        ensures
            bytes@ == self@.buffer,
    {
        self.file_buffer.as_slice()
    }

    /// How many bytes of the header pattern the candidate has matched: 8
    /// once the header is complete.
    pub fn header_idx(&self) -> (progress: usize)
        requires
            self.wf(),
        ensures
            progress == header_cursor(self@),
    {
        self.header_idx
    }

    /// How far the candidate is in its footer: below 8 the number of matched
    /// bytes of the footer pattern, from 8 on the checksum bytes as well.
    pub fn footer_idx(&self) -> (progress: usize)
        requires
            self.wf(),
        ensures
            progress == footer_cursor(self@),
    {
        self.footer_idx
    }

    /// A scanner that has seen nothing and places its artifacts under
    /// `out_dir`.
    pub fn new(out_dir: String) -> (search: PngSearch)
        ensures
            search.wf(),
            search@ == initial(),
            search.destination() == out_dir@,
    {
        let search = PngSearch {
            file_buffer: Vec::new(),
            png_count: 0,
            header_idx: 0,
            footer_idx: 0,
            out_dir,
        };
        assert(search.file_buffer@ =~= header().take(0));
        search
    }

    /// Consumes one byte: the scanner makes one step of the model. Returns
    /// the artifact that the byte completes, if it completes one: that is the
    /// case exactly for the fourth byte after a footer pattern that follows a
    /// header. The artifact takes the next ordinal and the whole buffer, and
    /// the scanner starts over with an empty one.
    ///
    /// The count is a `u32`: a byte that completes an image needs room in it
    /// for one more.
    pub fn add_byte(&mut self, byte: u8) -> (event: Option<Artifact>)
        requires
            old(self).wf(),
            completes(old(self)@) ==> old(self)@.count < u32::MAX,
        ensures
            final(self).wf(),
            final(self)@ == step(old(self)@, byte),
            final(self).destination() == old(self).destination(),
            match emits(old(self)@, byte) {
                Some(payload) => event matches Some(artifact) && artifact.describes(
                    old(self)@.count + 1,
                    payload,
                    old(self).destination(),
                ),
                None => event is None,
            },
            event matches Some(artifact) ==> delimited(artifact.bytes@),
    {
        proof {
            lemma_step_well_formed(self@, byte);
            lemma_emits_delimited(self@, byte);
        }
        if self.header_idx < 8 {
            // search for the full header
            if matches_header(self.header_idx, byte) {
                self.header_idx += 1;
                self.file_buffer.push(byte);
            } else {
                self.header_idx = 0;
                self.file_buffer = Vec::new();
            }
            None
        } else if self.footer_idx < 8 {
            // read contents / search for the footer
            self.file_buffer.push(byte);
            if matches_footer(self.footer_idx, byte) {
                self.footer_idx += 1;
            } else {
                self.footer_idx = 0;
            }
            None
        } else if self.footer_idx < 11 {
            // the bytes after the footer pattern are a CRC
            self.file_buffer.push(byte);
            self.footer_idx += 1;
            None
        } else {
            // the last byte of the CRC: hand the buffer out and start over
            self.file_buffer.push(byte);
            self.png_count += 1;
            let name = artifact_name(self.png_count);
            let dest = join(self.out_dir.as_str(), name.as_str());
            let mut bytes = Vec::new();
            core::mem::swap(&mut self.file_buffer, &mut bytes);
            self.header_idx = 0;
            self.footer_idx = 0;
            Some(Artifact { ordinal: self.png_count, name, dest, bytes })
        }
    }

    /// Consumes `bytes` in order and returns the artifacts that they
    /// complete, in the order of their completion.
    pub fn add_bytes(&mut self, bytes: &[u8]) -> (found: Vec<Artifact>)
        requires
            old(self).wf(),
            old(self)@.count + emitted(old(self)@, bytes@).len() <= u32::MAX,
        ensures
            final(self).wf(),
            final(self)@ == feed(old(self)@, bytes@),
            final(self).destination() == old(self).destination(),
            found.len() == emitted(old(self)@, bytes@).len(),
            forall|k: int|
                0 <= k < found.len() ==> (#[trigger] found[k]).describes(
                    (old(self)@.count + k + 1) as nat,
                    emitted(old(self)@, bytes@)[k],
                    old(self).destination(),
                ),
            forall|k: int| 0 <= k < found.len() ==> delimited((#[trigger] found[k]).bytes@),
    {
        let ghost start = self@;
        let ghost dir = self.destination();
        let mut found: Vec<Artifact> = Vec::new();
        let mut i: usize = 0;
        while i < bytes.len()
            invariant
                i <= bytes.len(),
                self.wf(),
                self@ == feed(start, bytes@.take(i as int)),
                self.destination() == dir,
                start.count + emitted(start, bytes@).len() <= u32::MAX,
                found.len() == emitted(start, bytes@.take(i as int)).len(),
                forall|k: int|
                    0 <= k < found.len() ==> (#[trigger] found[k]).describes(
                        (start.count + k + 1) as nat,
                        emitted(start, bytes@.take(i as int))[k],
                        dir,
                    ),
                forall|k: int| 0 <= k < found.len() ==> delimited((#[trigger] found[k]).bytes@),
            decreases bytes.len() - i,
        {
            let ghost seen = bytes@.take(i as int);
            proof {
                assert(bytes@.take(i + 1) =~= seen.push(bytes@[i as int]));
                lemma_feed_push(start, seen, bytes@[i as int]);
                lemma_feed_count(start, seen);
                lemma_emitted_prefix(start, bytes@, i + 1);
            }
            let event = self.add_byte(bytes[i]);
            match event {
                Some(artifact) => {
                    found.push(artifact);
                },
                None => {},
            }
            i += 1;
        }
        proof {
            assert(bytes@.take(bytes@.len() as int) =~= bytes@);
        }
        found
    }
}

} // verus!
