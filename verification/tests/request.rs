use fit_resize::{Mode, Request};

fn args(words: &[&str]) -> Vec<String> {
    words.iter().map(|w| w.to_string()).collect()
}

#[test]
fn one_path_is_no_request() {
    assert_eq!(Request::from_args(&args(&["resize", "in.png"])), None);
}

#[test]
fn no_argument_is_no_request() {
    assert_eq!(Request::from_args(&args(&["resize"])), None);
    assert_eq!(Request::from_args(&args(&[])), None);
}

#[test]
fn two_paths_take_the_defaults() {
    let request = Request::from_args(&args(&["resize", "in.png", "out.png"])).unwrap();
    assert_eq!(request.input, "in.png");
    assert_eq!(request.output, "out.png");
    assert_eq!((request.target_w, request.target_h), (1280, 720));
    assert_eq!(request.mode, Mode::Fit);
}

#[test]
fn size_and_mode_are_read() {
    let request =
        Request::from_args(&args(&["resize", "a.jpg", "b.jpg", "1920x1080", "fill"])).unwrap();
    assert_eq!(
        request,
        Request {
            input: "a.jpg".to_string(),
            output: "b.jpg".to_string(),
            target_w: 1920,
            target_h: 1080,
            mode: Mode::Fill,
        }
    );
}

#[test]
fn unreadable_size_and_mode_fall_back() {
    let request =
        Request::from_args(&args(&["resize", "a.jpg", "b.jpg", "0x10", "stretch"])).unwrap();
    assert_eq!((request.target_w, request.target_h), (1280, 720));
    assert_eq!(request.mode, Mode::Fit);
}

#[test]
fn a_size_alone_leaves_the_mode_at_fit() {
    let request = Request::from_args(&args(&["resize", "a.jpg", "b.jpg", "youtube"])).unwrap();
    assert_eq!((request.target_w, request.target_h), (1280, 720));
    assert_eq!(request.mode, Mode::Fit);
    let request = Request::from_args(&args(&["resize", "a.jpg", "b.jpg", "64x48"])).unwrap();
    assert_eq!((request.target_w, request.target_h), (64, 48));
}

#[test]
fn further_arguments_are_ignored() {
    let request =
        Request::from_args(&args(&["resize", "a", "b", "10x20", "crop", "more", "words"])).unwrap();
    assert_eq!((request.target_w, request.target_h), (10, 20));
    assert_eq!(request.mode, Mode::Fill);
}
