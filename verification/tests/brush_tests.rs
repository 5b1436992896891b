use terrain_edit::brush::{Buttons, Mode, State, Window, falloff_num, resolve_window};
use terrain_edit::field::{HeightField, Rect};
use terrain_edit::{MAX_Z_MICRO, SCALE};

fn no_noise() -> Vec<i64> {
    Vec::new()
}

fn buttons_left() -> Buttons {
    Buttons { left: true, right: false }
}

#[test]
fn falloff_boundary_values() {
    // Exactly zero on the circle (3-4-5) and beyond it.
    assert_eq!(falloff_num(3, 4, 5), 0);
    assert_eq!(falloff_num(30, 0, 30), 0);
    assert_eq!(falloff_num(100, 100, 30), 0);
    // Full weight (radius squared over radius squared) at the center.
    assert_eq!(falloff_num(0, 0, 5), 25);
    assert_eq!(falloff_num(0, 0, 30), 900);
    // Linear in squared distance in between.
    assert_eq!(falloff_num(1, 0, 2), 3);
}

#[test]
fn window_clamped_at_corner() {
    // A radius-30 brush at the grid corner resolves to [0,30] x [0,30]
    // intersected with the grid.
    let win = resolve_window(0, 0, 30, 100, 100).unwrap();
    assert_eq!(win, Window { i0: 0, i1: 30, j0: 0, j1: 30 });
    let small = resolve_window(0, 0, 30, 10, 10).unwrap();
    assert_eq!(small, Window { i0: 0, i1: 9, j0: 0, j1: 9 });
}

#[test]
fn window_empty_off_grid() {
    assert!(resolve_window(-100, -100, 30, 50, 50).is_none());
    assert!(resolve_window(100, 2, 30, 50, 50).is_none());
    assert!(resolve_window(2, 2, 30, 0, 50).is_none());
}

#[test]
fn stroke_at_corner_stays_in_bounds() {
    // Radius 30 at (0,0) on a 10x10 grid touches exactly the grid corner
    // region and leaves the sample count unchanged.
    let mut field = HeightField::new(10, 10, 0);
    let st = State::new();
    let touched = st.handle_user_input(buttons_left(), 0, 0, &mut field, &no_noise());
    assert_eq!(touched, Some(Rect { x: 0, y: 0, w: 10, h: 10 }));
    assert_eq!(field.texels.len(), 100);
}

#[test]
fn noop_without_buttons() {
    let mut field = HeightField::new(8, 8, 123_456);
    let st = State::new();
    let before = field.texels.clone();
    let touched =
        st.handle_user_input(Buttons { left: false, right: false }, 4, 4, &mut field, &no_noise());
    assert!(touched.is_none());
    assert_eq!(field.texels, before);
}

#[test]
fn noop_with_zero_strength() {
    let mut field = HeightField::new(8, 8, 123_456);
    let mut st = State::new();
    st.pen_strength = 0;
    let touched = st.handle_user_input(buttons_left(), 4, 4, &mut field, &no_noise());
    assert!(touched.is_none());
    assert_eq!(field.texels, vec![123_456; 64]);
}

#[test]
fn raise_center_by_strength() {
    let mut field = HeightField::new(5, 5, 0);
    let mut st = State::new();
    st.pen_radius = 2;
    st.pen_strength = 2 * SCALE;
    let touched = st.handle_user_input(buttons_left(), 2, 2, &mut field, &no_noise());
    assert_eq!(touched, Some(Rect { x: 0, y: 0, w: 5, h: 5 }));
    // Center: full falloff weight, raised by the whole strength.
    assert_eq!(field.get(2, 2), 2 * SCALE);
    // One step away: weight 3/4, truncating division.
    assert_eq!(field.get(1, 2), 2 * SCALE * 3 / 4);
    // On the circle: weight 0.
    assert_eq!(field.get(0, 2), 0);
}

#[test]
fn right_button_lowers() {
    let mut field = HeightField::new(5, 5, 50 * SCALE);
    let mut st = State::new();
    st.pen_radius = 2;
    st.pen_strength = 2 * SCALE;
    st.handle_user_input(Buttons { left: false, right: true }, 2, 2, &mut field, &no_noise());
    assert_eq!(field.get(2, 2), 48 * SCALE);
}

#[test]
fn left_wins_when_both_buttons_held() {
    let mut field = HeightField::new(5, 5, 0);
    let mut st = State::new();
    st.pen_radius = 2;
    st.pen_strength = 2 * SCALE;
    st.handle_user_input(Buttons { left: true, right: true }, 2, 2, &mut field, &no_noise());
    assert_eq!(field.get(2, 2), 2 * SCALE);
}

#[test]
fn flatten_uniform_field_unchanged() {
    // A uniform field equals its own window average, so flattening
    // leaves every sample exactly as it was (the average is computed
    // before any cell is blended).
    let mut field = HeightField::new(5, 5, 10 * SCALE);
    let mut st = State::new();
    st.mode = Mode::Flatten;
    st.pen_radius = 2;
    st.pen_strength = 10 * SCALE;
    st.min_z = 0;
    st.max_z = MAX_Z_MICRO;
    let touched = st.handle_user_input(buttons_left(), 2, 2, &mut field, &no_noise());
    assert_eq!(touched, Some(Rect { x: 0, y: 0, w: 5, h: 5 }));
    assert_eq!(field.texels, vec![10 * SCALE; 25]);
}

#[test]
fn median_pulls_outlier_to_neighborhood() {
    // One outlier inside a flat region: a full-power median stroke
    // replaces it by the neighborhood median, which is the flat value.
    let mut field = HeightField::new(9, 9, 0);
    field.texels[4 + 4 * 9] = 1000 * SCALE;
    let mut st = State::new();
    st.mode = Mode::Median;
    st.pen_radius = 1;
    st.pen_strength = 10 * SCALE;  // blend fraction exactly 1
    let touched = st.handle_user_input(buttons_left(), 4, 4, &mut field, &no_noise());
    assert!(touched.is_some());
    assert_eq!(field.get(4, 4), 0);
}

#[test]
fn median_even_window_takes_index_half() {
    // At a grid corner the clamped neighborhood has an even cell count;
    // the median is the element at index len/2 of the ascending sort.
    let mut field = HeightField::new(2, 3, 0);
    let vals = [10, 20, 30, 40, 50, 60];
    for (k, v) in vals.iter().enumerate() {
        field.texels[k] = v * SCALE;
    }
    let mut st = State::new();
    st.mode = Mode::Median;
    st.pen_radius = 1;
    st.pen_strength = 10 * SCALE;
    st.handle_user_input(buttons_left(), 0, 0, &mut field, &no_noise());
    // Sorted neighborhood: 10..60; index 6/2 = 3 holds 40.
    assert_eq!(field.get(0, 0), 40 * SCALE);
}

#[test]
fn blur_replaces_center_with_mean_at_full_power() {
    let mut field = HeightField::new(3, 3, 0);
    field.texels[4] = 90 * SCALE;
    let mut st = State::new();
    st.mode = Mode::Blur;
    st.pen_radius = 1;
    st.pen_strength = 10 * SCALE;  // blend fraction exactly 1 at the center
    st.handle_user_input(buttons_left(), 1, 1, &mut field, &no_noise());
    assert_eq!(field.get(1, 1), 10 * SCALE);
}

#[test]
fn noise_adds_scaled_sample() {
    let mut field = HeightField::new(3, 3, 0);
    let mut st = State::new();
    st.mode = Mode::Noise;
    st.pen_radius = 1;
    st.pen_strength = 2 * SCALE;
    // One sample per window cell, row-major; all at +1.0.
    let noise = vec![SCALE; 9];
    st.handle_user_input(buttons_left(), 1, 1, &mut field, &noise);
    assert_eq!(field.get(1, 1), 2 * SCALE);
    // The corner lies on the brush circle: weight 0, untouched.
    assert_eq!(field.get(0, 0), 0);
}

#[test]
fn clamp_bounds_every_touched_cell() {
    let mut field = HeightField::new(5, 5, 500 * SCALE);
    let mut st = State::new();
    st.pen_radius = 2;
    st.pen_strength = 100 * SCALE;
    st.min_z = 0;
    st.max_z = MAX_Z_MICRO;
    st.handle_user_input(buttons_left(), 2, 2, &mut field, &no_noise());
    for &v in field.texels.iter() {
        assert!(v >= 0 && v <= MAX_Z_MICRO);
    }
    assert_eq!(field.get(2, 2), MAX_Z_MICRO);
    // Lowering below the floor clamps at the floor.
    let mut st2 = State::new();
    st2.pen_radius = 2;
    st2.pen_strength = 100 * SCALE;
    st2.min_z = 499 * SCALE;
    st2.max_z = MAX_Z_MICRO;
    st2.handle_user_input(Buttons { left: false, right: true }, 2, 2, &mut field, &no_noise());
    for &v in field.texels.iter() {
        assert!(v >= 499 * SCALE && v <= MAX_Z_MICRO);
    }
}

#[test]
fn set_range_raises_ceiling_to_floor() {
    let mut st = State::new();
    st.set_range(10 * SCALE, 5 * SCALE);
    assert_eq!(st.min_z, 10 * SCALE);
    assert_eq!(st.max_z, 10 * SCALE);
    st.set_range(5 * SCALE, 20 * SCALE);
    assert_eq!(st.min_z, 5 * SCALE);
    assert_eq!(st.max_z, 20 * SCALE);
}

#[test]
fn fill_rewrites_whole_grid() {
    let mut field = HeightField::new(4, 3, 7);
    let touched = field.fill(50 * SCALE);
    assert_eq!(touched, Rect { x: 0, y: 0, w: 4, h: 3 });
    assert_eq!(field.texels, vec![50 * SCALE; 12]);
}

#[test]
fn state_defaults() {
    let st = State::new();
    assert_eq!(st.pen_radius, 30);
    assert_eq!(st.pen_strength, 2 * SCALE);
    assert!(st.mode == Mode::Raise);
    assert_eq!(st.min_z, 0);
    assert_eq!(st.max_z, MAX_Z_MICRO);
    assert_eq!(st.noise_seed, 0);
    assert_eq!(st.noise_freq_micro, 10_000_000);
    assert_eq!(st.map_path, "src/asset/map/map_example");
}
