//! The course of a session.

use eye_control::face::{placeholder_mesh, Landmark, LEFT_EYE_BOTTOM, LEFT_EYE_TOP};
use eye_control::session::{
    read_key, stage_prompt, Action, Command, Session, CLICK_PAUSE_MS, STAGES,
};
use eye_control::single::Single;

fn single(x: f32) -> Single {
    Single::from_bits(x.to_bits())
}

fn value(x: Single) -> f32 {
    f32::from_bits(x.to_bits())
}

fn key(c: char) -> i32 {
    c as u32 as i32
}

/// The placeholder with the left eye open.
fn open_mesh() -> Vec<Landmark> {
    let mut mesh = placeholder_mesh();
    mesh[LEFT_EYE_TOP].y = single(0.4);
    mesh[LEFT_EYE_BOTTOM].y = single(0.6);
    mesh
}

fn tracking() -> Session {
    let mut s = Session::new(1920, 1080);
    for _ in 0..STAGES {
        assert!(s.on_key(key('c')));
    }
    s
}

#[test]
fn new_session() {
    let s = Session::new(1920, 1080);
    assert_eq!((value(s.screen_w), value(s.screen_h)), (1920.0, 1080.0));
    assert_eq!((value(s.smooth_x), value(s.smooth_y)), (960.0, 540.0));
    assert_eq!(value(s.smooth_factor), 0.15);
    assert_eq!(s.calibration_stage, 0);
    assert!(s.show_visuals && !s.invert_face_x && !s.invert_face_y);
    let pair = |p: (Single, Single)| (value(p.0), value(p.1));
    assert_eq!(pair(s.calib_eyes.c), (0.5, 0.5));
    assert_eq!(pair(s.calib_eyes.tl), (0.35, 0.3));
    assert_eq!(pair(s.calib_eyes.tr), (0.65, 0.3));
    assert_eq!(pair(s.calib_eyes.bl), (0.35, 0.7));
    assert_eq!(pair(s.calib_eyes.br), (0.65, 0.7));
    assert_eq!(pair(s.calib_face.c), (0.5, 0.5));
    assert_eq!(pair(s.calib_face.tl), (0.45, 0.45));
    assert_eq!(pair(s.calib_face.tr), (0.55, 0.45));
    assert_eq!(pair(s.calib_face.bl), (0.45, 0.55));
    assert_eq!(pair(s.calib_face.br), (0.55, 0.55));
    assert_eq!(value(s.blink_threshold), 0.004);
    assert_eq!(value(s.face_weight), 0.0);
}

#[test]
fn keys_are_read_by_their_lowest_byte() {
    assert_eq!(read_key(key('q')), Command::Quit);
    assert_eq!(read_key(0x100 + key('q')), Command::Quit);
    assert_eq!(read_key(key('r')), Command::Restart);
    assert_eq!(read_key(key('v')), Command::ToggleVisuals);
    assert_eq!(read_key(key('x')), Command::InvertX);
    assert_eq!(read_key(key('y')), Command::InvertY);
    assert_eq!(read_key(key('=')), Command::Faster);
    assert_eq!(read_key(key('+')), Command::Faster);
    assert_eq!(read_key(key('-')), Command::Slower);
    assert_eq!(read_key(key('c')), Command::Capture);
    for k in [-1, 0, i32::MIN, 1, 255, 0x200, key('Q'), key('a')] {
        assert_eq!(read_key(k), Command::Nothing);
    }
    // Negative codes stand for no key, whatever their lowest byte is.
    assert_eq!(read_key(key('q') - 256), Command::Nothing);
}

#[test]
fn only_quit_ends_the_session() {
    for k in 0..1024 {
        let mut s = tracking();
        assert_eq!(s.on_key(k), k == 0 || k % 256 != key('q'));
    }
}

#[test]
fn capturing_goes_through_the_stages_and_stops() {
    let mut s = Session::new(800, 600);
    for n in 1..20usize {
        assert!(s.on_key(key('c')));
        assert_eq!(s.calibration_stage, n.min(11));
    }
    assert!(s.on_key(key('r')));
    assert_eq!(s.calibration_stage, 0);
}

#[test]
fn switches_work_only_while_tracking_and_undo_themselves() {
    let mut s = Session::new(800, 600);
    for c in ['v', 'x', 'y'] {
        s.on_key(key(c));
    }
    assert!(s.show_visuals && !s.invert_face_x && !s.invert_face_y);
    let mut s = tracking();
    s.on_key(key('v'));
    s.on_key(key('x'));
    s.on_key(key('y'));
    assert!(!s.show_visuals && s.invert_face_x && s.invert_face_y);
    s.on_key(key('v'));
    s.on_key(key('x'));
    s.on_key(key('y'));
    assert!(s.show_visuals && !s.invert_face_x && !s.invert_face_y);
}

#[test]
fn smoothing_stays_in_range() {
    let mut s = Session::new(800, 600);
    let mut f = 0.15f32;
    for _ in 0..30 {
        s.on_key(key('+'));
        f = (f + 0.05).min(1.0);
        assert_eq!(value(s.smooth_factor), f);
    }
    assert_eq!(value(s.smooth_factor), 1.0);
    for _ in 0..30 {
        s.on_key(key('-'));
        f = (f - 0.05).max(0.01);
        assert_eq!(value(s.smooth_factor), f);
    }
    assert_eq!(value(s.smooth_factor), 0.01);
}

#[test]
fn prompts_of_all_stages() {
    let want = [
        "1. Look DEAD CENTER of screen",
        "2. Look TOP-LEFT (Move EYES only)",
        "3. Look TOP-RIGHT (Move EYES only)",
        "4. Look BOTTOM-LEFT (Move EYES only)",
        "5. Look BOTTOM-RIGHT (Move EYES only)",
        "6. Turn HEAD slightly TOP-LEFT",
        "7. Turn HEAD slightly TOP-RIGHT",
        "8. Turn HEAD slightly BOTTOM-LEFT",
        "9. Turn HEAD slightly BOTTOM-RIGHT",
        "10. Look naturally (Eyes open)",
        "11. Close LEFT EYE completely",
    ];
    let mut s = Session::new(1920, 1080);
    for (stage, text) in want.iter().enumerate() {
        assert_eq!(stage_prompt(stage), *text);
        let r = s.on_frame(&open_mesh(), 1280, 720);
        assert_eq!(r.overlay.len(), 2);
        assert_eq!(r.overlay[0].text, *text);
        assert_eq!(r.overlay[1].text, "Press 'c' to set");
        assert_eq!(r.marker, if stage == 0 { Some((640, 360)) } else { None });
        assert_eq!(r.action, Action::Show { move_to: None });
        assert_eq!(value(s.smooth_x), 960.0);
        s.on_key(key('c'));
    }
}

#[test]
fn marker_halves_the_frame() {
    let mut s = Session::new(1920, 1080);
    assert_eq!(s.on_frame(&open_mesh(), 641, 481).marker, Some((320, 240)));
    let odd = 16777217;
    let half = (odd as f32 / 2.0) as i32;
    assert_eq!(s.on_frame(&open_mesh(), odd, 0).marker, Some((half, 0)));
}

#[test]
fn a_blink_clicks_and_changes_nothing() {
    let mut s = tracking();
    let before = s;
    let r = s.on_frame(&placeholder_mesh(), 1280, 720);
    assert_eq!(r.action, Action::Click { pause_ms: 500 });
    assert_eq!(CLICK_PAUSE_MS, 500);
    assert_eq!(r.overlay.len(), 2);
    assert_eq!(s.smooth_x.to_bits(), before.smooth_x.to_bits());
    assert_eq!(s.face_weight.to_bits(), before.face_weight.to_bits());
    // Shut lids click during the calibration too.
    let mut s = Session::new(1920, 1080);
    let r = s.on_frame(&placeholder_mesh(), 1280, 720);
    assert_eq!(r.action, Action::Click { pause_ms: 500 });
    assert_eq!(r.marker, Some((640, 360)));
}

#[test]
fn a_face_that_cannot_be_measured_is_passed_over() {
    let mut s = tracking();
    let flat = vec![Landmark { x: single(0.5), y: single(0.5) }; 478];
    let r = s.on_frame(&flat, 1280, 720);
    assert!(r.overlay.is_empty());
    assert_eq!(r.marker, None);
    assert_eq!(r.action, Action::Show { move_to: None });
}

#[test]
fn tracking_moves_the_pointer() {
    let mut s = tracking();
    let mut mesh = open_mesh();
    // Look to the right: the irises near the right corners of the eyes.
    for i in [474, 475, 476, 477, 469, 470, 471, 472] {
        mesh[i].x = single(0.58);
    }
    let r = s.on_frame(&mesh, 1280, 720);
    assert_eq!(r.overlay[0].text, "Dyn Weight: 0.00 | InvY: false");
    assert_eq!(r.overlay[1].text, "Press 'x'/'y' to invert, 'v' to hide UI");
    assert_eq!(r.marker, None);
    match r.action {
        Action::Show { move_to: Some((x, y)) } => {
            assert!(x > 960 && x <= 1920);
            assert_eq!((x, y), (value(s.smooth_x) as i32, value(s.smooth_y) as i32));
        }
        _ => panic!("the pointer has to move"),
    }
    // The head faces its centre.
    assert_eq!(value(s.face_weight), 0.1);
    s.on_key(key('y'));
    let r = s.on_frame(&mesh, 1280, 720);
    assert_eq!(r.overlay[0].text, "Dyn Weight: 0.10 | InvY: true");
    s.on_key(key('v'));
    assert!(s.on_frame(&mesh, 1280, 720).overlay.is_empty());
}

#[test]
fn the_pointer_stays_on_screen_whatever_comes() {
    let mut s = tracking();
    let mut state: u64 = 31;
    for n in 0..300 {
        let mut mesh = open_mesh();
        for p in mesh.iter_mut() {
            state = state.wrapping_mul(6364136223846793005).wrapping_add(1442695040888963407);
            p.x = single(((state >> 40) as f32) / 16777216.0);
        }
        s.on_frame(&mesh, 1280, 720);
        // A flat face has no reading at all, and moves nothing.
        let (x, y) = (s.smooth_x.to_bits(), s.smooth_y.to_bits());
        s.on_frame(&vec![Landmark { x: single(0.5), y: single(0.5) }; 478], 1280, 720);
        assert_eq!((s.smooth_x.to_bits(), s.smooth_y.to_bits()), (x, y));
        s.on_key([key('+'), key('-'), key('x'), key('y'), key('v')][n % 5]);
        assert!(value(s.smooth_x) >= 0.0 && value(s.smooth_x) <= 1920.0);
        assert!(value(s.smooth_y) >= 0.0 && value(s.smooth_y) <= 1080.0);
    }
}
