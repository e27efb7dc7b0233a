//! The course of a session: calibration, keys and frames.

use vstd::prelude::*;

use crate::aiming;
use crate::face;
use crate::face::{
    calculate_average_gaze, check_blink, get_head_pose, get_left_eye_height, Landmark, MESH_POINTS,
};
use crate::laws;
use crate::number::Number;
use crate::pointer;
use crate::pointer::{update_mouse_position, Calibration, PointerStep};
use crate::single::Single;
use crate::text;
use crate::text::{display_text, weight_text, TextLine};
use crate::turning;
use crate::value;

verus! {

/// Number of calibration stages; a session that has passed them all tracks.
pub const STAGES: usize = 11;

/// What the user is asked to do at a stage.
pub open spec fn prompt(stage: nat) -> Seq<char> {
    if stage == 0 {
        "1. Look DEAD CENTER of screen"@
    } else if stage == 1 {
        "2. Look TOP-LEFT (Move EYES only)"@
    } else if stage == 2 {
        "3. Look TOP-RIGHT (Move EYES only)"@
    } else if stage == 3 {
        "4. Look BOTTOM-LEFT (Move EYES only)"@
    } else if stage == 4 {
        "5. Look BOTTOM-RIGHT (Move EYES only)"@
    } else if stage == 5 {
        "6. Turn HEAD slightly TOP-LEFT"@
    } else if stage == 6 {
        "7. Turn HEAD slightly TOP-RIGHT"@
    } else if stage == 7 {
        "8. Turn HEAD slightly BOTTOM-LEFT"@
    } else if stage == 8 {
        "9. Turn HEAD slightly BOTTOM-RIGHT"@
    } else if stage == 9 {
        "10. Look naturally (Eyes open)"@
    } else {
        "11. Close LEFT EYE completely"@
    }
}

/// What the user is asked to do at a stage.
pub fn stage_prompt(stage: usize) -> (r: &'static str)
    requires
        stage < STAGES,
    ensures
        r@ == prompt(stage as nat),
{
    match stage {
        0 => "1. Look DEAD CENTER of screen",
        1 => "2. Look TOP-LEFT (Move EYES only)",
        2 => "3. Look TOP-RIGHT (Move EYES only)",
        3 => "4. Look BOTTOM-LEFT (Move EYES only)",
        4 => "5. Look BOTTOM-RIGHT (Move EYES only)",
        5 => "6. Turn HEAD slightly TOP-LEFT",
        6 => "7. Turn HEAD slightly TOP-RIGHT",
        7 => "8. Turn HEAD slightly BOTTOM-LEFT",
        8 => "9. Turn HEAD slightly BOTTOM-RIGHT",
        9 => "10. Look naturally (Eyes open)",
        _ => "11. Close LEFT EYE completely",
    }
}

/// What a key asks for.
#[derive(Clone, Copy, Debug, PartialEq, Eq, Structural)]
pub enum Command {
    Quit,
    Restart,
    ToggleVisuals,
    InvertX,
    InvertY,
    Faster,
    Slower,
    Capture,
    Nothing,
}

/// The command of a key code. Codes that are not positive stand for no key;
/// of the others the lowest eight bits are a character.
pub open spec fn command_of(key: int) -> Command {
    let c = (key % 256) as char;
    if key <= 0 {
        Command::Nothing
    } else if c == 'q' {
        Command::Quit
    } else if c == 'r' {
        Command::Restart
    } else if c == 'v' {
        Command::ToggleVisuals
    } else if c == 'x' {
        Command::InvertX
    } else if c == 'y' {
        Command::InvertY
    } else if c == '=' || c == '+' {
        Command::Faster
    } else if c == '-' {
        Command::Slower
    } else if c == 'c' {
        Command::Capture
    } else {
        Command::Nothing
    }
}

/// The command of a key code.
pub fn read_key(key: i32) -> (r: Command)
    ensures
        r == command_of(key as int),
{
    if key <= 0 {
        return Command::Nothing;
    }
    let c: char = ((key % 256) as u8) as char;
    match c {
        'q' => Command::Quit,
        'r' => Command::Restart,
        'v' => Command::ToggleVisuals,
        'x' => Command::InvertX,
        'y' => Command::InvertY,
        '=' | '+' => Command::Faster,
        '-' => Command::Slower,
        'c' => Command::Capture,
        _ => Command::Nothing,
    }
}

/// What a session stands for.
#[verifier::ext_equal]
pub struct State {
    pub screen_w: Number,
    pub screen_h: Number,
    pub x: Number,
    pub y: Number,
    pub factor: Number,
    pub stage: nat,
    pub show_visuals: bool,
    pub invert_x: bool,
    pub invert_y: bool,
    pub eyes: Calibration,
    pub head: Calibration,
    pub blink_threshold: Number,
    pub weight: Number,
}

impl State {
    /// Whether all stages of the calibration have been passed.
    pub open spec fn tracking(self) -> bool {
        self.stage >= STAGES
    }

    /// The smoothing stays between one hundredth and one, the stage within its range.
    pub open spec fn wf(self) -> bool {
        &&& self.stage <= STAGES
        &&& Number::ratio(1, 100).at_most(self.factor)
        &&& self.factor.at_most(Number::whole(1))
        &&& self.factor.is_single()
    }

    /// The state after a command.
    pub open spec fn after_command(self, command: Command) -> State {
        match command {
            Command::Quit => self,
            Command::Restart => State { stage: 0, ..self },
            Command::ToggleVisuals => if self.stage == STAGES {
                State { show_visuals: !self.show_visuals, ..self }
            } else {
                self
            },
            Command::InvertX => if self.stage == STAGES {
                State { invert_x: !self.invert_x, ..self }
            } else {
                self
            },
            Command::InvertY => if self.stage == STAGES {
                State { invert_y: !self.invert_y, ..self }
            } else {
                self
            },
            Command::Faster => State {
                factor: self.factor.plus(Number::ratio(5, 100)).lesser(Number::whole(1)),
                ..self
            },
            Command::Slower => State {
                factor: self.factor.minus(Number::ratio(5, 100)).greater(Number::ratio(1, 100)),
                ..self
            },
            Command::Capture => if self.stage < STAGES {
                State { stage: self.stage + 1, ..self }
            } else {
                self
            },
            Command::Nothing => self,
        }
    }

    /// The reading that a mesh gives.
    pub open spec fn reading(mesh: Seq<Landmark>) -> pointer::Reading {
        pointer::Reading {
            ratio_x: face::gaze_x(mesh),
            ratio_y: face::gaze_y(mesh),
            yaw: face::head_yaw(mesh),
            pitch: face::head_pitch(mesh),
        }
    }

    /// The pointer position after a step on a reading.
    pub open spec fn stepped(self, reading: pointer::Reading) -> (Number, Number) {
        pointer::step(
            self.x,
            self.y,
            reading.aim_x(self.eyes, self.head, self.invert_x).times(self.screen_w),
            reading.aim_y(self.eyes, self.head, self.invert_y).times(self.screen_h),
            self.factor,
        )
    }

    /// Whether the left eye counts as shut.
    pub open spec fn blinks(self, mesh: Seq<Landmark>) -> bool {
        face::eyes_measurable(mesh) && face::left_eye_height(mesh).less(self.blink_threshold)
    }

    /// Whether a frame moves the pointer.
    pub open spec fn follows(self, mesh: Seq<Landmark>) -> bool {
        face::eyes_measurable(mesh) && !self.blinks(mesh) && self.tracking()
    }

    /// The state after a frame.
    pub open spec fn after_frame(self, mesh: Seq<Landmark>) -> State {
        if self.follows(mesh) {
            let reading = State::reading(mesh);
            State {
                x: self.stepped(reading).0,
                y: self.stepped(reading).1,
                weight: reading.weight(self.head),
                ..self
            }
        } else {
            self
        }
    }

    /// What is to be done once a frame has been drawn over.
    pub open spec fn action_of_frame(self, mesh: Seq<Landmark>) -> Action {
        if self.blinks(mesh) {
            Action::Click { pause_ms: CLICK_PAUSE_MS }
        } else if self.follows(mesh) {
            let next = self.after_frame(mesh);
            Action::Show { move_to: pointer::pixel_move(self.x, self.y, next.x, next.y) }
        } else {
            Action::Show { move_to: None }
        }
    }

    /// What is written over a frame.
    pub open spec fn overlay_of_frame(self, mesh: Seq<Landmark>) -> Seq<(Seq<char>, i32, i32)> {
        if !face::eyes_measurable(mesh) {
            seq![]
        } else if !self.tracking() {
            text::text_lines(prompt(self.stage), "Press 'c' to set"@)
        } else if self.show_visuals {
            text::text_lines(
                text::weight_line(self.weight, self.invert_y),
                "Press 'x'/'y' to invert, 'v' to hide UI"@,
            )
        } else {
            seq![]
        }
    }

    /// The dot in the middle of the frame, while the first stage lasts.
    pub open spec fn marker_of_frame(
        self,
        mesh: Seq<Landmark>,
        cols: int,
        rows: int,
    ) -> Option<(i32, i32)> {
        if face::eyes_measurable(mesh) && self.stage == 0 {
            Some((half_of(cols) as i32, half_of(rows) as i32))
        } else {
            None
        }
    }
}

/// One half of an extent in pixels, as single precision gives it.
pub open spec fn half_of(extent: int) -> int {
    Number::whole(extent).over(Number::whole(2)).truncated()
}

fn half_extent(extent: i32) -> (r: i32)
    ensures
        r == half_of(extent as int),
{
    Single::from_i32(extent).over(Single::from_i32(2)).to_i32()
}

/// All that a session remembers between frames.
#[derive(Clone, Copy, Debug)]
pub struct Session {
    pub screen_w: Single,
    pub screen_h: Single,
    pub smooth_x: Single,
    pub smooth_y: Single,
    pub smooth_factor: Single,
    pub calibration_stage: usize,
    pub show_visuals: bool,
    pub invert_face_x: bool,
    pub invert_face_y: bool,
    pub calib_eyes: Calibration,
    pub calib_face: Calibration,
    pub blink_threshold: Single,
    pub face_weight: Single,
}

impl View for Session {
    type V = State;

    open spec fn view(&self) -> State {
        State {
            screen_w: self.screen_w@,
            screen_h: self.screen_h@,
            x: self.smooth_x@,
            y: self.smooth_y@,
            factor: self.smooth_factor@,
            stage: self.calibration_stage as nat,
            show_visuals: self.show_visuals,
            invert_x: self.invert_face_x,
            invert_y: self.invert_face_y,
            eyes: self.calib_eyes,
            head: self.calib_face,
            blink_threshold: self.blink_threshold@,
            weight: self.face_weight@,
        }
    }
}

/// How long a session rests after a click, in milliseconds.
pub const CLICK_PAUSE_MS: u64 = 500;

/// What is to be done once a frame has been drawn over.
#[derive(Clone, Copy, Debug, PartialEq, Eq)]
pub enum Action {
    /// Click, rest, and go on with the next frame: this one is not shown, and
    /// no key is read.
    Click { pause_ms: u64 },
    /// Move the mouse to a pixel, if it has to move, show the frame and read a key.
    Show { move_to: Option<(i32, i32)> },
}

/// What one frame asks of the outside.
#[derive(Debug)]
pub struct FrameOutcome {
    /// Text to draw, with its places.
    pub overlay: Vec<TextLine>,
    /// Where to draw the dot of the first stage.
    pub marker: Option<(i32, i32)>,
    /// What to do then.
    pub action: Action,
}

/// Whether a reading across and down stands for two fractions.
pub open spec fn reads(p: (Single, Single), x: Number, y: Number) -> bool {
    p.0@ == x && p.1@ == y
}

fn hundredths_pair(x: u32, y: u32) -> (r: (Single, Single))
    ensures
        reads(r, Number::ratio(x as nat, 100), Number::ratio(y as nat, 100)),
{
    (Single::ratio(x, 100), Single::ratio(y, 100))
}

impl Session {
    /// A session that begins with the first stage, the pointer in the middle of
    /// the screen.
    pub fn new(screen_w: i32, screen_h: i32) -> (r: Session)
        ensures
            r@.screen_w == Number::whole(screen_w as int),
            r@.screen_h == Number::whole(screen_h as int),
            r@.x == r@.screen_w.over(Number::whole(2)),
            r@.y == r@.screen_h.over(Number::whole(2)),
            r@.factor == Number::ratio(15, 100),
            r@.stage == 0,
            r@.show_visuals,
            !r@.invert_x,
            !r@.invert_y,
            ({
                let half = Number::ratio(50, 100);
                let (near, far) = (Number::ratio(35, 100), Number::ratio(65, 100));
                let (high, low) = (Number::ratio(30, 100), Number::ratio(70, 100));
                &&& reads(r@.eyes.c, half, half)
                &&& reads(r@.eyes.tl, near, high)
                &&& reads(r@.eyes.tr, far, high)
                &&& reads(r@.eyes.bl, near, low)
                &&& reads(r@.eyes.br, far, low)
            }),
            ({
                let half = Number::ratio(50, 100);
                let (near, far) = (Number::ratio(45, 100), Number::ratio(55, 100));
                &&& reads(r@.head.c, half, half)
                &&& reads(r@.head.tl, near, near)
                &&& reads(r@.head.tr, far, near)
                &&& reads(r@.head.bl, near, far)
                &&& reads(r@.head.br, far, far)
            }),
            r@.blink_threshold == Number::ratio(4, 1000),
            r@.weight == Number::zero(),
            r@.wf(),
            laws::steady_calibration(r@.eyes),
            laws::steady_calibration(r@.head),
            aiming::clear_calibration(r@.eyes),
            aiming::clear_calibration(r@.head),
            turning::in_order(r@.eyes.left(), r@.eyes.c.0@, r@.eyes.right()),
            turning::in_order(r@.eyes.top(), r@.eyes.c.1@, r@.eyes.bottom()),
            turning::in_order(r@.head.left(), r@.head.c.0@, r@.head.right()),
            turning::in_order(r@.head.top(), r@.head.c.1@, r@.head.bottom()),
            0 <= screen_w <= 0x100_0000 ==> 2real * r@.x.value() == screen_w as real,
            0 <= screen_h <= 0x100_0000 ==> 2real * r@.y.value() == screen_h as real,
            0 <= screen_w <= 0x80_0000 && 0 <= screen_h <= 0x80_0000 ==> laws::has_screen(r@)
                && laws::on_screen(r@),
    {
        let ghost (width, height) = (screen_w as int, screen_h as int);
        let two: Single = Single::from_i32(2);
        let screen_w: Single = Single::from_i32(screen_w);
        let screen_h: Single = Single::from_i32(screen_h);
        let r: Session = Session {
            screen_w,
            screen_h,
            smooth_x: screen_w.over(two),
            smooth_y: screen_h.over(two),
            smooth_factor: Single::ratio(15, 100),
            calibration_stage: 0,
            show_visuals: true,
            invert_face_x: false,
            invert_face_y: false,
            calib_eyes: Calibration {
                c: hundredths_pair(50, 50),
                tl: hundredths_pair(35, 30),
                tr: hundredths_pair(65, 30),
                bl: hundredths_pair(35, 70),
                br: hundredths_pair(65, 70),
            },
            calib_face: Calibration {
                c: hundredths_pair(50, 50),
                tl: hundredths_pair(45, 45),
                tr: hundredths_pair(55, 45),
                bl: hundredths_pair(45, 55),
                br: hundredths_pair(55, 55),
            },
            blink_threshold: Single::ratio(4, 1000),
            face_weight: Single::default(),
        };
        proof {
            laws::first_factor_in_range();
            laws::hundredths_in_unit_range();
            laws::unit_calibration_is_steady(r.calib_eyes);
            laws::unit_calibration_is_steady(r.calib_face);
            turning::rectangle_is_clear_and_in_order(r.calib_eyes, 35, 65, 30, 70, 50, 50);
            turning::rectangle_is_clear_and_in_order(r.calib_face, 45, 55, 45, 55, 50, 50);
            if 0 <= width <= 0x100_0000 {
                value::half_of_whole_is_exact(width);
            }
            if 0 <= height <= 0x100_0000 {
                value::half_of_whole_is_exact(height);
            }
            if 0 <= width <= 0x80_0000 && 0 <= height <= 0x80_0000 {
                laws::new_pointer_on_screen(r@, width, height);
            }
        }
        r
    }

    /// Takes a key. False where the session is to end.
    pub fn on_key(&mut self, key: i32) -> (go_on: bool)
        ensures
            go_on <==> command_of(key as int) != Command::Quit,
            final(self)@ == old(self)@.after_command(command_of(key as int)),
            old(self)@.wf() ==> final(self)@.wf(),
    {
        proof {
            if self@.wf() {
                laws::commands_keep_well_formed(self@, command_of(key as int));
            }
        }
        match read_key(key) {
            Command::Quit => {
                return false;
            },
            Command::Restart => {
                self.calibration_stage = 0;
            },
            Command::ToggleVisuals => {
                if self.calibration_stage == STAGES {
                    self.show_visuals = !self.show_visuals;
                }
            },
            Command::InvertX => {
                if self.calibration_stage == STAGES {
                    self.invert_face_x = !self.invert_face_x;
                }
            },
            Command::InvertY => {
                if self.calibration_stage == STAGES {
                    self.invert_face_y = !self.invert_face_y;
                }
            },
            Command::Faster => {
                self.smooth_factor =
                self.smooth_factor.plus(Single::ratio(5, 100)).lesser(Single::from_i32(1));
            },
            Command::Slower => {
                self.smooth_factor =
                self.smooth_factor.minus(Single::ratio(5, 100)).greater(Single::ratio(1, 100));
            },
            Command::Capture => {
                if self.calibration_stage < STAGES {
                    self.calibration_stage = self.calibration_stage + 1;
                }
            },
            Command::Nothing => {},
        }
        true
    }

    /// What is written over a frame in which both eyes were measured.
    fn overlay(&self) -> (r: Vec<TextLine>)
        ensures
            forall|mesh: Seq<Landmark>| #[trigger]
                face::eyes_measurable(mesh) ==> text::lines_view(r@)
                    == self@.overlay_of_frame(mesh),
    {
        if self.calibration_stage < STAGES {
            display_text(stage_prompt(self.calibration_stage), "Press 'c' to set")
        } else if self.show_visuals {
            let report: String = weight_text(self.face_weight, self.invert_face_y);
            display_text(report.as_str(), "Press 'x'/'y' to invert, 'v' to hide UI")
        } else {
            let none: Vec<TextLine> = Vec::new();
            assert(text::lines_view(none@) =~= seq![]);
            none
        }
    }

    /// Takes the mesh of a frame of `cols` by `rows` pixels.
    pub fn on_frame(&mut self, landmarks: &[Landmark], cols: i32, rows: i32) -> (r: FrameOutcome)
        requires
            landmarks.len() >= MESH_POINTS,
        ensures
            final(self)@ == old(self)@.after_frame(landmarks@),
            text::lines_view(r.overlay@) == old(self)@.overlay_of_frame(landmarks@),
            r.marker == old(self)@.marker_of_frame(landmarks@, cols as int, rows as int),
            r.action == old(self)@.action_of_frame(landmarks@),
            old(self)@.wf() ==> final(self)@.wf(),
    {
        match calculate_average_gaze(landmarks) {
            None => {
                let overlay: Vec<TextLine> = Vec::new();
                assert(text::lines_view(overlay@) =~= seq![]);
                FrameOutcome { overlay, marker: None, action: Action::Show { move_to: None } }
            },
            Some((avg_x, avg_y, _irises, _bounds)) => {
                let (yaw, pitch) = get_head_pose(landmarks);
                let current_eye_height: Single = get_left_eye_height(landmarks);
                let overlay: Vec<TextLine> = self.overlay();
                let marker: Option<(i32, i32)> = if self.calibration_stage == 0 {
                    Some((half_extent(cols), half_extent(rows)))
                } else {
                    None
                };
                if check_blink(current_eye_height, self.blink_threshold) {
                    let action: Action = Action::Click { pause_ms: CLICK_PAUSE_MS };
                    return FrameOutcome { overlay, marker, action };
                }
                if self.calibration_stage >= STAGES {
                    let result: PointerStep = update_mouse_position(
                        avg_x,
                        avg_y,
                        yaw,
                        pitch,
                        self.screen_w,
                        self.screen_h,
                        self.smooth_x,
                        self.smooth_y,
                        &self.calib_eyes,
                        &self.calib_face,
                        self.smooth_factor,
                        self.invert_face_x,
                        self.invert_face_y,
                    );
                    self.smooth_x = result.x;
                    self.smooth_y = result.y;
                    self.face_weight = result.face_weight;
                    let action: Action = Action::Show { move_to: result.move_to };
                    FrameOutcome { overlay, marker, action }
                } else {
                    FrameOutcome { overlay, marker, action: Action::Show { move_to: None } }
                }
            },
        }
    }
}

} // verus!
