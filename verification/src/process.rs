use crate::params::{Parameters, Snapshot};
use crate::single::Single;
use crate::transform::{distort, distort_value};
use vstd::prelude::*;

verus! {

/// The number of samples that share one snapshot of the controls.
pub const BLOCK_SIZE: usize = 128;

/// Whether the sample at `i` belongs to the sub-block `block`.
pub open spec fn in_block(i: int, block: int) -> bool {
    block * 128 <= i < (block + 1) * 128
}

/// Audio as the host hands it over: channels, each of as many samples as the others.
pub struct Buffer {
    pub channels: Vec<Vec<Single>>,
}

impl Buffer {
    /// Whether every channel holds as many samples as the first.
    pub open spec fn wf(&self) -> bool {
        forall|c: int|
            0 <= c < self.channels.len() ==> (#[trigger] self.channels[c]).len()
                == self.channels[0].len()
    }

    /// The number of samples in every channel; none where there is no channel.
    pub open spec fn frames(&self) -> nat {
        if self.channels.len() == 0 {
            0
        } else {
            self.channels[0].len() as nat
        }
    }

    /// Whether `other` has the same channels of the same lengths.
    pub open spec fn same_shape(&self, other: &Buffer) -> bool {
        &&& self.channels.len() == other.channels.len()
        &&& forall|c: int|
            0 <= c < self.channels.len() ==> (#[trigger] self.channels[c]).len()
                == other.channels[c].len()
    }

    /// The buffer of the given channels, where they are equally long.
    pub fn new(channels: Vec<Vec<Single>>) -> (r: Option<Buffer>)
        ensures
            r.is_some() == (Buffer { channels }).wf(),
            r.is_some() ==> r.unwrap().channels == channels,
    {
        let mut c: usize = 0;
        while c < channels.len()
            invariant
                c <= channels.len(),
                forall|k: int| 0 <= k < c ==> (#[trigger] channels[k]).len() == channels[0].len(),
            decreases channels.len() - c,
        {
            if channels[c].len() != channels[0].len() {
                proof {
                    let b: Buffer = Buffer { channels };
                    assert(b.channels[c as int].len() != b.channels[0].len());
                }
                return None;
            }
            c = c + 1;
        }
        Some(Buffer { channels })
    }

    /// The number of channels.
    pub fn channel_count(&self) -> (n: usize)
        ensures
            n == self.channels.len(),
    {
        self.channels.len()
    }

    /// The number of samples in every channel.
    pub fn samples(&self) -> (n: usize)
        ensures
            n == self.frames(),
    {
        if self.channels.len() == 0 {
            0
        } else {
            self.channels[0].len()
        }
    }
}

/// Distorts the samples of one channel from `start` up to `end`; the others stay.
fn process_span(channel: &mut Vec<Single>, start: usize, end: usize, snapshot: &Snapshot)
    requires
        start <= end <= old(channel).len(),
    ensures
        final(channel).len() == old(channel).len(),
        forall|i: int|
            start <= i < end ==> (#[trigger] final(channel)[i])@ == distort_value(
                old(channel)[i]@,
                *snapshot,
            ),
        forall|i: int|
            0 <= i < old(channel).len() && !(start <= i < end) ==> #[trigger] final(channel)[i]
                == old(channel)[i],
{
    let mut i: usize = start;
    while i < end
        invariant
            start <= i <= end <= channel.len(),
            channel.len() == old(channel).len(),
            forall|k: int|
                start <= k < i ==> (#[trigger] channel[k])@ == distort_value(
                    old(channel)[k]@,
                    *snapshot,
                ),
            forall|k: int|
                0 <= k < channel.len() && !(start <= k < i) ==> #[trigger] channel[k] == old(
                    channel,
                )[k],
        decreases end - i,
    {
        let x: Single = channel[i];
        channel[i] = distort(x, snapshot);
        i = i + 1;
    }
}

/// Distorts one sub-block of every channel in place, under one snapshot of the controls. A
/// sub-block that lies past the end of the buffer holds no sample.
pub fn process_block(buffer: &mut Buffer, block: usize, snapshot: &Snapshot)
    requires
        old(buffer).wf(),
    ensures
        final(buffer).wf(),
        final(buffer).same_shape(old(buffer)),
        forall|c: int, i: int|
            0 <= c < old(buffer).channels.len() && 0 <= i < old(buffer).channels[c].len()
                && in_block(i, block as int) ==> (#[trigger] final(buffer).channels[c][i])@
                == distort_value(old(buffer).channels[c][i]@, *snapshot),
        forall|c: int, i: int|
            0 <= c < old(buffer).channels.len() && 0 <= i < old(buffer).channels[c].len()
                && !in_block(i, block as int) ==> #[trigger] final(buffer).channels[c][i] == old(
                buffer,
            ).channels[c][i],
{
    let frames: usize = buffer.samples();
    if block > frames / BLOCK_SIZE {
        return;
    }
    let start: usize = block * BLOCK_SIZE;
    let end: usize = if frames - start > BLOCK_SIZE {
        start + BLOCK_SIZE
    } else {
        frames
    };
    let mut c: usize = 0;
    while c < buffer.channels.len()
        invariant
            c <= buffer.channels.len(),
            old(buffer).wf(),
            frames == old(buffer).frames(),
            start == block * 128,
            start <= end <= frames,
            end == start + 128 || (end == frames && frames <= start + 128),
            buffer.same_shape(old(buffer)),
            forall|k: int, i: int|
                0 <= k < c && 0 <= i < frames && in_block(i, block as int) ==> (
                #[trigger] buffer.channels[k][i])@ == distort_value(
                    old(buffer).channels[k][i]@,
                    *snapshot,
                ),
            forall|k: int, i: int|
                0 <= k < c && 0 <= i < frames && !in_block(i, block as int)
                    ==> #[trigger] buffer.channels[k][i] == old(buffer).channels[k][i],
            forall|k: int|
                c <= k < buffer.channels.len() ==> #[trigger] buffer.channels[k] == old(
                    buffer,
                ).channels[k],
        decreases buffer.channels.len() - c,
    {
        let ghost prev: Seq<Vec<Single>> = buffer.channels@;
        process_span(&mut buffer.channels[c], start, end, snapshot);
        proof {
            let row: Vec<Single> = buffer.channels[c as int];
            assert(prev[c as int] == old(buffer).channels[c as int]);
            assert(row.len() == frames);
            assert forall|i: int| 0 <= i < frames && !in_block(i, block as int) implies row[i]
                == old(buffer).channels[c as int][i] by {
                assert(!(start <= i < end));
            }
            assert forall|i: int| 0 <= i < frames && in_block(i, block as int) implies row[i]@
                == distort_value(old(buffer).channels[c as int][i]@, *snapshot) by {
                assert(start <= i < end);
            }
            assert forall|k: int| 0 <= k < buffer.channels.len() && k != c implies
                #[trigger] buffer.channels[k] == prev[k] by {}
        }
        c = c + 1;
    }
}

/// The number of sub-blocks that a buffer of `frames` samples falls into; the last one may be
/// short.
pub open spec fn block_count(frames: nat) -> nat {
    (frames + 127) / 128
}

/// The number of sub-blocks of the buffer.
pub fn blocks(buffer: &Buffer) -> (n: usize)
    ensures
        n == block_count(buffer.frames()),
{
    let frames: usize = buffer.samples();
    if frames % BLOCK_SIZE == 0 {
        frames / BLOCK_SIZE
    } else {
        frames / BLOCK_SIZE + 1
    }
}

/// Distorts the whole buffer in place, sub-block by sub-block: the sub-block `b` under the
/// snapshot `automation[b]`, which holds for each of its samples in every channel.
pub fn process(buffer: &mut Buffer, automation: &Vec<Snapshot>)
    requires
        old(buffer).wf(),
        automation.len() >= block_count(old(buffer).frames()),
    ensures
        final(buffer).wf(),
        final(buffer).same_shape(old(buffer)),
        forall|c: int, i: int|
            0 <= c < old(buffer).channels.len() && 0 <= i < old(buffer).channels[c].len() ==> (
            #[trigger] final(buffer).channels[c][i])@ == distort_value(
                old(buffer).channels[c][i]@,
                automation[i / 128],
            ),
{
    let count: usize = blocks(buffer);
    let mut b: usize = 0;
    while b < count
        invariant
            b <= count,
            count == block_count(old(buffer).frames()),
            count <= automation.len(),
            buffer.wf(),
            buffer.same_shape(old(buffer)),
            forall|c: int, i: int|
                0 <= c < old(buffer).channels.len() && 0 <= i < old(buffer).channels[c].len() && i
                    < b * 128 ==> (#[trigger] buffer.channels[c][i])@ == distort_value(
                    old(buffer).channels[c][i]@,
                    automation[i / 128],
                ),
            forall|c: int, i: int|
                0 <= c < old(buffer).channels.len() && 0 <= i < old(buffer).channels[c].len() && i
                    >= b * 128 ==> #[trigger] buffer.channels[c][i] == old(buffer).channels[c][i],
        decreases count - b,
    {
        process_block(buffer, b, &automation[b]);
        b = b + 1;
    }
}

/// The effect: its controls, and the processing under them.
pub struct Hardbit {
    pub params: Parameters,
}

impl Default for Hardbit {
    /// The effect with the declared controls, each at its default.
    fn default() -> (r: Hardbit)
        ensures
            r.params == Parameters::declared(),
    {
        Hardbit { params: Parameters::new() }
    }
}

impl Hardbit {
    /// The controls.
    pub fn params(&self) -> (p: &Parameters)
        ensures
            *p == self.params,
    {
        &self.params
    }

    /// Distorts the whole buffer in place under the controls as they stand, read anew for
    /// every sub-block.
    pub fn process(&self, buffer: &mut Buffer)
        requires
            old(buffer).wf(),
        ensures
            final(buffer).wf(),
            final(buffer).same_shape(old(buffer)),
            forall|c: int, i: int|
                0 <= c < old(buffer).channels.len() && 0 <= i < old(buffer).channels[c].len() ==> (
                #[trigger] final(buffer).channels[c][i])@ == distort_value(
                    old(buffer).channels[c][i]@,
                    self.params.snapshot_value(),
                ),
    {
        let count: usize = blocks(buffer);
        let mut b: usize = 0;
        while b < count
            invariant
                b <= count,
                count == block_count(old(buffer).frames()),
                buffer.wf(),
                buffer.same_shape(old(buffer)),
                forall|c: int, i: int|
                    0 <= c < old(buffer).channels.len() && 0 <= i < old(buffer).channels[c].len()
                        && i < b * 128 ==> (#[trigger] buffer.channels[c][i])@ == distort_value(
                        old(buffer).channels[c][i]@,
                        self.params.snapshot_value(),
                    ),
                forall|c: int, i: int|
                    0 <= c < old(buffer).channels.len() && 0 <= i < old(buffer).channels[c].len()
                        && i >= b * 128 ==> #[trigger] buffer.channels[c][i] == old(
                        buffer,
                    ).channels[c][i],
            decreases count - b,
        {
            let snapshot: Snapshot = self.params.snapshot();
            process_block(buffer, b, &snapshot);
            b = b + 1;
        }
    }
}

} // verus!
