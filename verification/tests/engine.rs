use spectral_decay::{SpectralDecay, SpectralDecayParameters, PARAM_SCALE};

#[test]
fn params_default() {
    let p = SpectralDecayParameters::default();
    assert_eq!(p.grain_select, 0);
    assert_eq!(p.fuzz, 0);
    assert_eq!(p.loss, 0);
    assert_eq!(p.glitch_freq, 0);
    assert_eq!(p.glitch_gain, PARAM_SCALE);
    assert_eq!(p.delay_select, 0);
}

#[test]
fn engine_delay() {
    // grain 32 with hop 8 against a 5/4 compensation of 40
    let sd = SpectralDecay::new(&[32, 64]);
    assert_eq!(sd.delay(), 40);
}

#[test]
fn engine_delay_compensation() {
    // pinning the delay selection to the largest entry matches an engine
    // built from that entry alone
    let mut sd = SpectralDecay::new(&[32, 64]);
    let mut p = SpectralDecayParameters::default();
    p.delay_select = PARAM_SCALE;
    sd.set_params(p);

    let sd2 = SpectralDecay::new(&[64]);

    assert_eq!(sd.delay(), 80);
    assert_eq!(sd2.delay(), 80);
    assert_eq!(sd.delay(), sd2.delay());
}

#[test]
fn engine_grain_switch_soft() {
    // a switch within a factor of two carries the hop phase over
    let mut sd = SpectralDecay::new(&[32, 64]);
    let chunks = sd.process_plan(3);
    assert_eq!(chunks, vec![(3, false)]);
    assert_eq!(sd.offset(), 3);

    let mut p = SpectralDecayParameters::default();
    p.grain_select = PARAM_SCALE;
    sd.set_params(p);

    assert_eq!(sd.grain_size(), 64);
    assert_eq!(sd.hop(), 16);
    assert_eq!(sd.offset(), 6);
}

#[test]
fn engine_grain_switch_hard() {
    // a jump over a factor of two resets the hop phase
    let mut sd = SpectralDecay::new(&[32, 256]);
    sd.process_plan(5);
    assert_eq!(sd.offset(), 5);

    let mut p = SpectralDecayParameters::default();
    p.grain_select = PARAM_SCALE;
    sd.set_params(p);

    assert_eq!(sd.grain_size(), 256);
    assert_eq!(sd.hop(), 64);
    assert_eq!(sd.offset(), 0);
}

#[test]
fn engine_process_plan() {
    let mut sd = SpectralDecay::new(&[32]);
    let chunks = sd.process_plan(20);
    assert_eq!(chunks, vec![(8, true), (8, true), (4, false)]);
    assert_eq!(sd.offset(), 4);

    let chunks = sd.process_plan(4);
    assert_eq!(chunks, vec![(4, true)]);
    assert_eq!(sd.offset(), 0);

    let chunks = sd.process_plan(0);
    assert_eq!(chunks, vec![]);
    assert_eq!(sd.offset(), 0);
}

#[test]
fn engine_grain_select_discretises() {
    let mut sd = SpectralDecay::new(&[32, 64, 128, 256]);
    let mut p = SpectralDecayParameters::default();
    // half-scale lands on the third of four entries
    p.grain_select = PARAM_SCALE / 2;
    sd.set_params(p);
    assert_eq!(sd.grain_size(), 128);
    let mut p2 = SpectralDecayParameters::default();
    p2.grain_select = PARAM_SCALE;
    sd.set_params(p2);
    assert_eq!(sd.grain_size(), 256);
}
