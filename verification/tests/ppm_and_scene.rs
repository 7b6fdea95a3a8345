use wgsl_toy::ppm::render_ppm;
use wgsl_toy::scene_select::{parse_args, parse_i8, scene_for_id, scene_id_from_args, SceneChoice};

#[test]
fn ppm_of_two_pixels() {
    let text = render_ppm(2, 1, &vec![255, 0, 7, 10, 100, 0]);
    assert_eq!(text, "P3\n2 1 255\n255 0 7 10 100 0 ");
}

#[test]
fn ppm_drops_incomplete_pixel() {
    let text = render_ppm(1024, 768, &vec![1, 2, 3, 4, 5]);
    assert_eq!(text, "P3\n1024 768 255\n1 2 3 ");
}

#[test]
fn ppm_of_empty_image() {
    assert_eq!(render_ppm(0, 0, &vec![]), "P3\n0 0 255\n");
    assert_eq!(render_ppm(u32::MAX, 10, &vec![]), "P3\n4294967295 10 255\n");
}

#[test]
fn parse_i8_matches_std() {
    let cases = [
        "", "0", "7", "+7", "-7", "127", "128", "-128", "-129", "007", "+", "-", "--1", "+-1", "1_0", " 1",
        "1 ", "99999999999", "-0", "abc", "12a", "٣", "1e2",
    ];
    for c in cases {
        assert_eq!(parse_i8(c), c.parse::<i8>().ok(), "case {:?}", c);
    }
    for v in -300i32..300 {
        let s = v.to_string();
        assert_eq!(parse_i8(&s), s.parse::<i8>().ok());
    }
}

#[test]
fn scene_id_comes_from_second_argument() {
    let args = vec!["prog".to_string(), "5".to_string()];
    assert_eq!(scene_id_from_args(&args, 1), 5);
    assert_eq!(parse_args(&args), 5);
    let bad = vec!["prog".to_string(), "five".to_string()];
    assert_eq!(scene_id_from_args(&bad, 3), 3);
    let none = vec!["prog".to_string()];
    assert_eq!(scene_id_from_args(&none, 6), 6);
    let outside = vec!["prog".to_string(), "42".to_string()];
    assert_eq!(parse_args(&outside), 42);
}

#[test]
fn random_scene_id_is_in_range() {
    for _ in 0..200 {
        let id = parse_args(&vec!["prog".to_string()]);
        assert!((1..=7).contains(&id));
        let id = parse_args(&vec!["prog".to_string(), "x".to_string()]);
        assert!((1..=7).contains(&id));
    }
}

#[test]
fn scene_numbers_map_to_scenes() {
    assert_eq!(scene_for_id(2), SceneChoice::Spheres);
    assert_eq!(scene_for_id(3), SceneChoice::Quad);
    assert_eq!(scene_for_id(4), SceneChoice::Cube);
    assert_eq!(scene_for_id(5), SceneChoice::Suzanne);
    assert_eq!(scene_for_id(6), SceneChoice::Lucy);
    assert_eq!(scene_for_id(7), SceneChoice::Dragon);
    assert_eq!(scene_for_id(1), SceneChoice::SimpleSpheres);
    assert_eq!(scene_for_id(0), SceneChoice::SimpleSpheres);
    assert_eq!(scene_for_id(-3), SceneChoice::SimpleSpheres);
    assert_eq!(scene_for_id(42), SceneChoice::SimpleSpheres);
}
