//! Analysis of a stream.
use rustspeck::channel::{Block, Channel, Geometry};
use rustspeck::config::Config;
use rustspeck::double::Double;
use rustspeck::feeder::Feeder;
use rustspeck::spectrogram::{deinterleave, Levels, Spectrogram, StreamProcessor};
use rustspeck::taper::Values;

fn d(x: f64) -> Double {
    Double { bits: x.to_bits() }
}

fn f(x: Double) -> f64 {
    f64::from_bits(x.bits)
}

fn geometry(dft: i32, step: i32, block: i32, x_size: i32, skip: u64) -> Geometry {
    Geometry {
        dft_size: dft,
        step_size: step,
        block_steps: block,
        rows: dft / 2 + 1,
        x_size,
        skip,
    }
}

fn all(g: &Geometry, samples: &[i32]) -> (Vec<Block>, Option<i32>, i32) {
    let mut c = Channel::new(g);
    let mut blocks = c.flow(samples);
    let (rest, tail) = c.drain();
    blocks.extend(rest);
    let n = c.cols();
    (blocks, tail, n)
}

/// The scheduling of blocks by hand: frames, ends and columns.
fn by_hand(g: &Geometry, samples: &[i32]) -> (Vec<(Vec<i32>, i32, bool)>, Option<i32>, i32) {
    let mut out = Vec::new();
    let (dft, step) = (g.dft_size, g.step_size);
    let mut buf = vec![0i32; dft as usize];
    let mut read = (step - dft) / 2;
    let (mut end, mut end_min) = (dft, 0);
    let (mut num, mut cols, mut truncated) = (0, 0, false);
    let skip = (g.skip as usize).min(samples.len());
    let mut isamp = ((dft - step) / 2) as i64;
    for pass in 0..2 {
        let feed: Vec<i32>;
        if pass == 0 {
            feed = samples[skip..].to_vec();
            if (g.skip as usize) >= samples.len() && g.skip > 0 {
                continue;
            }
        } else {
            if truncated {
                break;
            }
            let left = (isamp + read as i64).rem_euclid(step as i64);
            if left >= (step >> 1) as i64 {
                isamp += step as i64 - left;
            }
            end = 0;
            end_min = -dft;
            let wait = (g.skip as usize).saturating_sub(samples.len());
            let zeros = isamp.max(0) as usize;
            feed = vec![0; zeros.saturating_sub(wait)];
        }
        let mut i = 0;
        while !truncated {
            if read == step {
                buf.copy_within(step as usize..dft as usize, 0);
                read = 0;
            }
            while i < feed.len() && read < step {
                buf[(dft - step + read) as usize] = feed[i];
                i += 1;
                read += 1;
                end -= 1;
            }
            if read != step {
                break;
            }
            end = end.max(end_min);
            num += 1;
            let mut column = false;
            if num == g.block_steps {
                if cols == g.x_size {
                    truncated = true;
                } else {
                    cols += 1;
                    column = true;
                    num = 0;
                }
            }
            out.push((buf.clone(), end, column));
        }
    }
    let mut tail = None;
    if !truncated && num != 0 {
        if cols == g.x_size {
            tail = None;
        } else {
            cols += 1;
            tail = Some(num);
        }
    }
    (out, tail, cols)
}

#[test]
fn blocks_are_scheduled_as_by_hand() {
    for (dft, step, block) in [(16, 5, 1), (16, 16, 2), (64, 20, 3), (32, 1, 4), (16, 7, 50)] {
        for n in [0usize, 1, 7, 16, 40, 333] {
            for (x_size, skip) in [(1000, 0u64), (3, 0), (1000, 10), (1000, 400)] {
                let g = geometry(dft, step, block, x_size, skip);
                let samples: Vec<i32> = (1..=n as i32).collect();
                let (blocks, tail, cols) = all(&g, &samples);
                let (want, want_tail, want_cols) = by_hand(&g, &samples);
                let mut last = 0;
                assert_eq!(blocks.len(), want.len());
                for (b, (frame, end, column)) in blocks.iter().zip(&want) {
                    assert_eq!(&b.frame, frame);
                    assert_eq!(b.column, *column);
                    let change = if *end != last { Some(*end) } else { None };
                    last = *end;
                    assert_eq!(b.window, change);
                }
                assert_eq!((tail, cols), (want_tail, want_cols));
            }
        }
    }
}

#[test]
fn pieces_give_the_same_blocks() {
    let g = geometry(32, 9, 2, 1000, 5);
    let samples: Vec<i32> = (0..500).map(|i| i * 7919 % 1000).collect();
    let (whole, tail, cols) = all(&g, &samples);
    for size in [1usize, 2, 13, 499] {
        let mut c = Channel::new(&g);
        let mut blocks = Vec::new();
        for piece in samples.chunks(size) {
            blocks.extend(c.flow(piece));
        }
        let (rest, t) = c.drain();
        blocks.extend(rest);
        assert_eq!(format!("{blocks:?}"), format!("{whole:?}"));
        assert_eq!((t, c.cols()), (tail, cols));
    }
}

#[test]
fn channels_are_dealt_out() {
    let s = [1, 2, 3, 4, 5, 6, 7];
    assert_eq!(deinterleave(&s, 0, 2), vec![1, 3, 5, 7]);
    assert_eq!(deinterleave(&s, 1, 2), vec![2, 4, 6]);
    assert_eq!(deinterleave(&s, 2, 3), vec![3, 6]);
}

#[test]
fn levels_are_in_decibels() {
    let mut c = Config::default();
    c.gain = 4;
    let c = c.finalize().unwrap();
    let g = geometry(4, 2, 5, 10, 0);
    let mut l = Levels::new(&c, &g);
    assert_eq!(f(l.max()), -120.0);
    l.add(&[(d(1.0), d(0.0)), (d(0.5), d(0.5)), (d(0.25), d(-0.5))]);
    l.add(&[(d(0.0), d(3.0)), (d(0.25), d(0.0)), (d(0.0), d(0.0))]);
    let sums = [10.0, 0.5625, 0.3125];
    let p = l.powers(None);
    let norm = 1.0 / 5.0;
    for i in 0..3 {
        assert_eq!(f(p[i]), sums[i] * norm);
    }
    let p = l.powers(Some(2));
    let norm = 1.0 / 5.0 * (5.0 / 2.0);
    for i in 0..3 {
        assert_eq!(f(p[i]), sums[i] * norm);
    }
    l.push(&[d(-1.5), d(-0.25), d(f64::NEG_INFINITY)]);
    let got: Vec<f32> = l.dbfs().iter().map(|b| f32::from_bits(*b)).collect();
    assert_eq!(got, vec![(10.0 * -1.5 - 4.0) as f32, (10.0 * -0.25 - 4.0) as f32, f32::NEG_INFINITY]);
    assert_eq!(f(l.max()), -2.5);
    assert!(l.powers(None).iter().all(|x| f(*x) == 0.0));
}

/// Values with which every point of a Hann window is a half.
fn halves(points: usize) -> Values {
    Values { cosines: vec![d(0.0); points], octaves: d(0.0), power: d(0.0), b0: d(0.0) }
}

fn processor(channels: u32, len: u64) -> StreamProcessor {
    let mut c = Config::default();
    c.y_size = 65;
    c.pixels_per_sec = d(100.0);
    let c = c.finalize().unwrap();
    StreamProcessor::new(c, d(8000.0), channels, len, &halves(129)).ok().unwrap()
}

#[test]
fn a_stream_fills_a_spectrogram() {
    let samples: Vec<i32> = (0..4000).map(|i| i * 104729).collect();
    let mut p = processor(2, 4000);
    assert_eq!((p.chans(), p.rows(), p.dft_size()), (2, 65, 128));
    assert_eq!((p.x_size(), p.step_size(), p.block_steps()), (25, 40, 2));
    assert_eq!(f(p.rate()), 8000.0);
    assert_eq!(p.cfg().y_size, 65);
    let mut columns = 0;
    for chunk in samples.chunks(222) {
        let blocks = p.push(chunk);
        for ch in 0..2 {
            for b in &blocks[ch] {
                assert_eq!(b.frame.len(), 128);
                p.add(ch, &vec![(d(0.5), d(0.0)); 65]);
                if b.column {
                    let powers = p.powers(ch, None);
                    assert_eq!(f(powers[0]), 0.25);
                    assert!(p.due(ch));
                    p.record(ch, &vec![d(ch as f64 - 2.0); 65]);
                    columns += 1;
                }
                assert!(p.channel_dbfs(ch).len() % 65 == 0);
            }
            assert!(!p.due(ch));
        }
    }
    let rest = p.finish();
    for (ch, r) in rest.iter().enumerate() {
        for b in &r.blocks {
            if b.column {
                p.record(ch, &vec![d(ch as f64 - 2.0); 65]);
                columns += 1;
            }
        }
        if r.tail.is_some() {
            p.record(ch, &vec![d(ch as f64 - 2.0); 65]);
            columns += 1;
        }
    }
    assert_eq!(columns, 2 * p.cols_done());
    assert_eq!(p.channel_dbfs(1).len(), (p.cols_done() * 65) as usize);
    let cols = p.cols_done();
    let s = p.into_spectrogram();
    assert_eq!((s.chans, s.rows, s.cols), (2, 65, cols));
    assert!(s.dbfs.iter().all(|d| d.len() == (65 * cols) as usize));
    assert_eq!(f32::from_bits(s.dbfs[0][0]), -20.0);
    assert_eq!(f32::from_bits(s.dbfs[1][0]), -10.0);
    assert_eq!(f(s.max), -20.0);
}

/// Some spectrum of a frame under a window.
fn spectrum(frame: &[i32], end: i32) -> Vec<(Double, Double)> {
    let scale = 1.0 / 2147483648.0;
    (0..65)
        .map(|k| {
            let re: f64 = frame.iter().skip(k).step_by(3).map(|x| *x as f64 * scale).sum();
            (d(re), d(frame[k] as f64 * scale + end as f64 / 1000.0))
        })
        .collect()
}

fn hear(p: &mut StreamProcessor, ends: &mut [i32], blocks: &[Vec<Block>]) {
    for ch in 0..blocks.len() {
        for b in &blocks[ch] {
            ends[ch] = b.window.unwrap_or(ends[ch]);
            let powers = p.hear(ch, b, &spectrum(&b.frame, ends[ch]));
            assert_eq!(powers.is_some(), b.column);
            if let Some(powers) = powers {
                assert_eq!(powers, p.powers(ch, None));
                close(p, ch, None);
            }
        }
    }
}

fn close(p: &mut StreamProcessor, ch: usize, tail: Option<i32>) {
    let logs: Vec<Double> = p.powers(ch, tail).iter().map(|x| d(f(*x).log10())).collect();
    p.record(ch, &logs);
}

fn finished(samples: &[i32], size: usize) -> Spectrogram {
    let mut p = processor(2, samples.len() as u64);
    let mut ends = [0, 0];
    for chunk in samples.chunks(size) {
        let blocks = p.push(chunk);
        hear(&mut p, &mut ends, &blocks);
    }
    let rest = p.finish();
    let tails: Vec<Option<i32>> = rest.iter().map(|r| r.tail).collect();
    let blocks: Vec<Vec<Block>> = rest.into_iter().map(|r| r.blocks).collect();
    hear(&mut p, &mut ends, &blocks);
    for ch in 0..2 {
        if tails[ch].is_some() {
            close(&mut p, ch, tails[ch]);
        }
    }
    p.into_spectrogram()
}

#[test]
fn levels_do_not_show_how_the_input_was_cut() {
    let samples: Vec<i32> = (0..5000i32).map(|i| i.wrapping_mul(1103515245) >> 2).collect();
    let whole = finished(&samples, samples.len());
    assert!(whole.cols > 0);
    for size in [2, 14, 222, 4998] {
        let s = finished(&samples, size);
        assert_eq!((s.cols, s.max.bits), (whole.cols, whole.max.bits));
        assert_eq!(s.dbfs, whole.dbfs);
    }
    for ch in 0..2 {
        assert_eq!(whole.dbfs[ch].len(), (whole.rows * whole.cols) as usize);
    }
    // the largest level of the first channel, as there is no gain
    let top = whole.dbfs[0].iter().map(|b| f32::from_bits(*b)).fold(-120.0, f32::max);
    assert_eq!(f(whole.max) as f32, top);
}

#[test]
fn a_block_adds_the_same_again() {
    let c = Config::default().finalize().unwrap();
    let g = geometry(4, 2, 1, 10, 0);
    let block = [(d(0.3), d(-0.1)), (d(1e-9), d(0.0)), (d(-7.0), d(2.5))];
    let other = [(d(0.7), d(0.2)), (d(3.0), d(1.0)), (d(0.0), d(0.0))];
    let mut l = Levels::new(&c, &g);
    l.add(&block);
    let once: Vec<f64> = l.powers(None).iter().map(|x| f(*x)).collect();
    l.add(&block);
    let twice: Vec<f64> = l.powers(None).iter().map(|x| f(*x)).collect();
    let mut l = Levels::new(&c, &g);
    l.add(&other);
    let before: Vec<f64> = l.powers(None).iter().map(|x| f(*x)).collect();
    l.add(&block);
    let after: Vec<f64> = l.powers(None).iter().map(|x| f(*x)).collect();
    for i in 0..3 {
        assert_eq!(twice[i], 2.0 * once[i]);
        assert_eq!(after[i], before[i] + once[i]);
        assert!(after[i] >= before[i]);
    }
}

#[test]
fn an_input_without_channels_is_refused() {
    let c = Config::default().finalize().unwrap();
    match StreamProcessor::new(c, d(8000.0), 0, 100, &halves(129)) {
        Err(e) => assert_eq!(e, "input has no channels"),
        Ok(_) => panic!("accepted"),
    }
}

#[test]
fn feeding_loses_nothing() {
    let chunks: Vec<Vec<i32>> = vec![vec![1, 2], vec![], vec![3], vec![4, 5, 6, 7], vec![8]];
    let mut feeder = Feeder::new(3);
    let mut got = Vec::new();
    let mut sizes = Vec::new();
    for c in &chunks {
        if let Some(batch) = feeder.feed(c) {
            sizes.push(batch.len());
            got.extend(batch);
        }
    }
    got.extend(feeder.rest());
    assert_eq!(got, vec![1, 2, 3, 4, 5, 6, 7, 8]);
    assert!(sizes.iter().all(|n| *n >= 3));
}
