//! Instrument waveform sources: raw PCM shared between samples, with the
//! offsets of the part that is played and of the part that loops.

use std::sync::Arc;
use vstd::prelude::*;

verus! {

/// How a sample takes part in a stereo pair.
#[derive(Clone, Copy, Debug, PartialEq, Eq, Structural)]
pub enum SampleType {
    Monoral,
    Right,
    Left,
    LinkSample,
}

impl SampleType {
    /// The sample type that a flag word stands for, if it stands for one.
    pub open spec fn of_flg(flg: u16) -> Option<SampleType> {
        if flg == 1 {
            Some(SampleType::Monoral)
        } else if flg == 2 {
            Some(SampleType::Right)
        } else if flg == 4 {
            Some(SampleType::Left)
        } else if flg == 8 {
            Some(SampleType::LinkSample)
        } else {
            None
        }
    }

    /// Decodes a flag word: 1, 2, 4 and 8 name the four sample types, any
    /// other word names none.
    pub fn from_flg(flg: u16) -> (r: Option<SampleType>)
        ensures
            r == Self::of_flg(flg),
    {
        match flg {
            1 => Some(SampleType::Monoral),
            2 => Some(SampleType::Right),
            4 => Some(SampleType::Left),
            8 => Some(SampleType::LinkSample),
            _ => None,
        }
    }
}

/// Where frame `idx` of a sample is found in the shared PCM data.
///
/// Frames before the loop are read in order from `start`; from the loop's
/// first frame on, reading wraps round the loop `[loopstart, loopend)`.
pub open spec fn access_index(start: int, loopstart: int, loopend: int, idx: int) -> int {
    if idx < loopstart - start {
        start + idx
    } else {
        loopstart + (idx - (loopstart - start)) % (loopend - loopstart)
    }
}

/// An instrument waveform: a window into shared PCM data with a loop.
pub struct Sample {
    pub sample_access: Arc<Vec<i16>>,
    pub name: String,
    pub start: u32,
    pub end: u32,
    pub loopstart: u32,
    pub loopend: u32,
    pub sample_rate: u32,
    pub original_key: u8,
    pub correction: i8,
    pub sample_link: Option<Arc<Sample>>,
    pub typee: SampleType,
}

/// Why a sample cannot be made.
#[derive(Clone, Copy, Debug, PartialEq, Eq, Structural)]
pub enum SampleError {
    /// The offsets are not ordered as `start <= loopstart <= loopend <= end`.
    InvalidLoopBounds,
    /// The sample ends past the end of the PCM data.
    OutOfData,
}

impl Sample {
    /// A monoral sample without a name and without a link, made of `data`
    /// and the four offsets. Offsets that are out of order are turned down,
    /// and so is an end past the end of the data.
    pub fn new(
        data: Arc<Vec<i16>>,
        start: u32,
        loopstart: u32,
        loopend: u32,
        end: u32,
        sample_rate: u32,
    ) -> (r: Result<Sample, SampleError>)
        ensures
            !(start <= loopstart <= loopend <= end) ==> r == Err::<Sample, SampleError>(
                SampleError::InvalidLoopBounds,
            ),
            start <= loopstart <= loopend <= end && end > data@.len() ==> r == Err::<
                Sample,
                SampleError,
            >(SampleError::OutOfData),
            start <= loopstart <= loopend <= end <= data@.len() ==> (r matches Ok(sample)
                && sample.wf() && sample.sample_access == data && sample.start == start
                && sample.loopstart == loopstart && sample.loopend == loopend && sample.end == end
                && sample.sample_rate == sample_rate && sample.name@ == Seq::<char>::empty()
                && sample.original_key == 60 && sample.correction == 0
                && sample.sample_link.is_none() && sample.typee == SampleType::Monoral),
    {
        if !(start <= loopstart && loopstart <= loopend && loopend <= end) {
            return Err(SampleError::InvalidLoopBounds);
        }
        if end as usize > data.len() {
            return Err(SampleError::OutOfData);
        }
        Ok(
            Sample {
                sample_access: data,
                name: String::new(),
                start,
                end,
                loopstart,
                loopend,
                sample_rate,
                original_key: 60,
                correction: 0,
                sample_link: None,
                typee: SampleType::Monoral,
            },
        )
    }

    /// The offsets are ordered, `start <= loopstart <= loopend <= end`, and
    /// lie within the PCM data.
    pub open spec fn wf(&self) -> bool {
        &&& self.start <= self.loopstart
        &&& self.loopstart <= self.loopend
        &&& self.loopend <= self.end
        &&& self.end <= self.sample_access@.len()
    }

    /// The PCM value of frame `idx` of this sample.
    pub open spec fn frame(&self, idx: int) -> i16 {
        self.sample_access@[access_index(
            self.start as int,
            self.loopstart as int,
            self.loopend as int,
            idx,
        )]
    }

    /// The frames before frame `to` can be read: either none of them lies
    /// in the loop, or the loop is not empty.
    pub open spec fn readable(&self, to: int) -> bool {
        to <= self.loopstart - self.start || self.loopstart < self.loopend
    }

    /// The PCM value of frame `idx`, where the sample is well formed and
    /// the frame can be read.
    pub open spec fn value(&self, idx: int) -> Option<i16> {
        if self.wf() && 0 <= idx && self.readable(idx + 1) {
            Some(self.frame(idx))
        } else {
            None
        }
    }

    /// Whether the offsets are ordered and lie within the PCM data.
    pub fn is_wf(&self) -> (r: bool)
        ensures
            r == self.wf(),
    {
        self.start <= self.loopstart && self.loopstart <= self.loopend && self.loopend <= self.end
            && self.end as usize <= self.sample_access.len()
    }

    /// The PCM value of frame `idx`. There is none where the offsets of the
    /// sample are out of order or out of the data, and none past the part
    /// before the loop where the loop is empty.
    pub fn value_at(&self, idx: usize) -> (r: Option<i16>)
        ensures
            r == self.value(idx as int),
    {
        if !self.is_wf() {
            return None;
        }
        if idx >= (self.loopstart - self.start) as usize && self.loopstart == self.loopend {
            return None;
        }
        let place = self.calculate_idx_of_sample_access(idx);
        Some(self.sample_access[place])
    }

    /// Frames `[from, to)` of this sample, in order.
    pub open spec fn frames(&self, from: int, to: int) -> Seq<i16> {
        Seq::new((to - from) as nat, |i: int| self.frame(from + i))
    }

    /// Reads frames `[start, end)` of the sample, wrapping round the loop:
    /// one value for each frame, in order.
    pub fn get_sample(&self, start: usize, end: usize) -> (sample: Vec<i16>)
        requires
            self.wf(),
            start <= end,
            self.readable(end as int),
        ensures
            sample@ == self.frames(start as int, end as int),
    {
        let mut sample: Vec<i16> = Vec::new();
        sample.resize(end - start, 0);

        for idx in start..end
            invariant
                self.wf(),
                start <= end,
                self.readable(end as int),
                sample@.len() == end - start,
                forall|i: int| 0 <= i < idx - start ==> sample@[i] == self.frame(start + i),
        {
            let sample_link_idx = self.calculate_idx_of_sample_access(idx);
            sample[idx - start] = self.sample_access[sample_link_idx];
        }
        assert(sample@ =~= self.frames(start as int, end as int));

        sample
    }

    /// The place in the shared PCM data where frame `idx` is read.
    pub fn calculate_idx_of_sample_access(&self, idx: usize) -> (r: usize)
        requires
            self.wf(),
            self.readable(idx + 1),
        ensures
            r == access_index(
                self.start as int,
                self.loopstart as int,
                self.loopend as int,
                idx as int,
            ),
            r < self.loopend,
            self.start <= r,
    {
        let lead: usize = (self.loopstart - self.start) as usize;
        if idx < lead {
            self.start as usize + idx
        } else {
            let span: usize = (self.loopend - self.loopstart) as usize;
            self.loopstart as usize + (idx - lead) % span
        }
    }
}

} // verus!
