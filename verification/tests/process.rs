use hardbit::params::{Parameters, Snapshot};
use hardbit::process::{blocks, process, process_block, Buffer, Hardbit, BLOCK_SIZE};
use hardbit::single::Single;
use hardbit::transform::distort;

fn single(x: f32) -> Single {
    Single::from_bits(x.to_bits())
}

fn snapshot(wet_dry: f32, add: f32, mult: f32, residue: bool) -> Snapshot {
    Snapshot {
        wet_dry: single(wet_dry),
        add_amount: single(add),
        mult_amount: single(mult),
        residue,
    }
}

/// A buffer of the given shape, each sample different from its neighbours.
fn ramp(channels: usize, frames: usize) -> Buffer {
    let mut all = Vec::new();
    for c in 0..channels {
        let mut channel = Vec::new();
        for i in 0..frames {
            let x = ((i * 37 + c * 11) % 200) as f32 / 100.0 - 1.0;
            channel.push(single(x));
        }
        all.push(channel);
    }
    Buffer::new(all).unwrap()
}

fn patterns(buffer: &Buffer) -> Vec<Vec<u32>> {
    buffer.channels.iter().map(|ch| ch.iter().map(|s| s.to_bits()).collect()).collect()
}

#[test]
fn a_buffer_takes_channels_of_one_length_only() {
    assert!(Buffer::new(vec![vec![single(0.0); 3], vec![single(0.0); 3]]).is_some());
    assert!(Buffer::new(vec![vec![single(0.0); 3], vec![single(0.0); 2]]).is_none());
    assert!(Buffer::new(vec![vec![single(0.0); 2], vec![single(0.0); 3]]).is_none());
    assert!(Buffer::new(vec![]).is_some());
    assert!(Buffer::new(vec![vec![], vec![]]).is_some());
    let b = Buffer::new(vec![vec![single(0.5); 7], vec![single(0.25); 7]]).unwrap();
    assert_eq!(b.channel_count(), 2);
    assert_eq!(b.samples(), 7);
    assert_eq!(Buffer::new(vec![]).unwrap().samples(), 0);
}

#[test]
fn sub_blocks_hold_128_samples() {
    assert_eq!(BLOCK_SIZE, 128);
    assert_eq!(blocks(&ramp(2, 0)), 0);
    assert_eq!(blocks(&ramp(2, 1)), 1);
    assert_eq!(blocks(&ramp(2, 128)), 1);
    assert_eq!(blocks(&ramp(2, 129)), 2);
    assert_eq!(blocks(&ramp(2, 300)), 3);
    assert_eq!(blocks(&ramp(0, 0)), 0);
}

#[test]
fn one_sub_block_is_distorted_and_the_rest_stays() {
    let s = snapshot(1.0, 1000000.0, 3.0, false);
    let before = ramp(2, 300);
    let old = patterns(&before);
    let mut buffer = ramp(2, 300);
    process_block(&mut buffer, 1, &s);
    let new = patterns(&buffer);
    let mut changed = 0;
    for c in 0..2 {
        for i in 0..300 {
            if (128..256).contains(&i) {
                let want = distort(Single::from_bits(old[c][i]), &s).to_bits();
                assert_eq!(new[c][i], want);
                if want != old[c][i] {
                    changed += 1;
                }
            } else {
                assert_eq!(new[c][i], old[c][i]);
            }
        }
    }
    assert!(changed > 100);
}

#[test]
fn the_last_sub_block_may_be_short_and_later_ones_are_empty() {
    let s = snapshot(1.0, 1000000.0, 1.0, false);
    let old = patterns(&ramp(2, 300));
    let mut buffer = ramp(2, 300);
    process_block(&mut buffer, 2, &s);
    let new = patterns(&buffer);
    for c in 0..2 {
        for i in 0..300 {
            if i >= 256 {
                assert_eq!(new[c][i], distort(Single::from_bits(old[c][i]), &s).to_bits());
            } else {
                assert_eq!(new[c][i], old[c][i]);
            }
        }
    }
    let mut buffer = ramp(2, 300);
    process_block(&mut buffer, 3, &s);
    assert_eq!(patterns(&buffer), old);
    process_block(&mut buffer, usize::MAX, &s);
    assert_eq!(patterns(&buffer), old);
    let mut exact = ramp(1, 256);
    let before = patterns(&exact);
    process_block(&mut exact, 2, &s);
    assert_eq!(patterns(&exact), before);
}

#[test]
fn every_sub_block_is_distorted_under_its_own_snapshot() {
    let automation = vec![
        snapshot(1.0, 0.0, 1.0, false),
        snapshot(1.0, 1000000.0, 1.0, false),
        snapshot(0.5, 4194304.0, 1024.0, true),
    ];
    let old = patterns(&ramp(2, 300));
    let mut buffer = ramp(2, 300);
    process(&mut buffer, &automation);
    let new = patterns(&buffer);
    for c in 0..2 {
        for i in 0..300 {
            let want = distort(Single::from_bits(old[c][i]), &automation[i / 128]).to_bits();
            assert_eq!(new[c][i], want);
        }
    }
    // The first sub-block went through the identity, the second did not.
    assert_eq!(new[0][..128], old[0][..128]);
    assert_ne!(new[0][128..256], old[0][128..256]);
}

#[test]
fn samples_do_not_depend_on_their_neighbours() {
    let s = snapshot(0.75, 1000000.0, 3.0, true);
    let mut buffer = ramp(2, 200);
    process(&mut buffer, &vec![s, s]);
    let whole = patterns(&buffer);
    let source = patterns(&ramp(2, 200));
    for c in 0..2 {
        for i in [0usize, 1, 127, 128, 199] {
            let mut alone = Buffer::new(vec![vec![Single::from_bits(source[c][i])]]).unwrap();
            process(&mut alone, &vec![s]);
            assert_eq!(alone.channels[0][0].to_bits(), whole[c][i]);
        }
    }
}

#[test]
fn an_empty_buffer_needs_no_snapshot() {
    let mut buffer = ramp(2, 0);
    process(&mut buffer, &vec![]);
    assert_eq!(buffer.samples(), 0);
    let mut none = ramp(0, 0);
    process(&mut none, &vec![]);
    assert_eq!(none.channel_count(), 0);
}

#[test]
fn the_effect_at_its_defaults_changes_nothing() {
    let effect = Hardbit::default();
    let old = patterns(&ramp(2, 300));
    let mut buffer = ramp(2, 300);
    effect.process(&mut buffer);
    assert_eq!(patterns(&buffer), old);
}

#[test]
fn the_effect_processes_under_its_controls() {
    let mut effect = Hardbit::default();
    effect.params.add_amount.set_plain_value(single(1000000.0));
    effect.params.mult_amount.set_plain_value(single(3.0));
    effect.params.wet_dry.set_plain_value(single(0.5));
    effect.params.residue.value = true;
    let s = effect.params().snapshot();
    assert_eq!(s.add_amount.to_bits(), 1000000.0f32.to_bits());
    let old = patterns(&ramp(2, 300));
    let mut buffer = ramp(2, 300);
    effect.process(&mut buffer);
    let new = patterns(&buffer);
    for c in 0..2 {
        for i in 0..300 {
            assert_eq!(new[c][i], distort(Single::from_bits(old[c][i]), &s).to_bits());
        }
    }
    assert_ne!(new, old);
    let fresh = Parameters::new();
    assert_eq!(fresh.snapshot().add_amount.to_bits(), 0);
}
