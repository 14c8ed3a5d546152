use pixelstream::message::{Color, Command, DrawOp, Pixel};
use pixelstream::router::{dispatch, route, RouterAction};

fn px(x: u32, y: u32) -> Pixel {
    Pixel { x, y, color: Color::white() }
}

#[test]
fn quit_shuts_the_dispatch_loop_down() {
    assert_eq!(route(Some(Command::Quit)), RouterAction::Shutdown);
}

#[test]
fn closed_channel_counts_as_quit() {
    assert_eq!(route(None), RouterAction::Shutdown);
}

#[test]
fn noop_is_ignored() {
    assert_eq!(route(Some(Command::Noop)), RouterAction::Ignore);
}

#[test]
fn resolution_goes_to_the_producer() {
    assert_eq!(
        route(Some(Command::Resolution(800, 600))),
        RouterAction::ForwardResolution(800, 600)
    );
}

#[test]
fn draw_goes_to_the_consumer_retagged() {
    let batch = vec![px(1, 2), px(3, 4)];
    let action = route(Some(Command::Draw(batch.clone())));
    assert_eq!(action, RouterAction::ForwardDraw(DrawOp::Draw(batch)));
}

#[test]
fn dispatch_keeps_the_inbound_order() {
    let a = vec![px(0, 0)];
    let b = vec![px(1, 1), px(2, 2)];
    let c = vec![px(3, 3)];
    let inbound = vec![
        Command::Draw(a.clone()),
        Command::Resolution(10, 20),
        Command::Noop,
        Command::Draw(b.clone()),
        Command::Draw(c.clone()),
    ];
    let (resolutions, draws, halted) = dispatch(inbound);
    assert_eq!(resolutions, vec![(10, 20)]);
    assert_eq!(
        draws,
        vec![DrawOp::Draw(a), DrawOp::Draw(b), DrawOp::Draw(c)]
    );
    assert!(!halted);
}

#[test]
fn dispatch_stops_at_the_first_quit() {
    let a = vec![px(0, 0)];
    let b = vec![px(1, 1)];
    let inbound = vec![
        Command::Draw(a.clone()),
        Command::Quit,
        Command::Draw(b),
        Command::Resolution(1, 1),
    ];
    let (resolutions, draws, halted) = dispatch(inbound);
    assert!(resolutions.is_empty());
    assert_eq!(draws, vec![DrawOp::Draw(a)]);
    assert!(halted);
}

#[test]
fn dispatch_of_an_empty_inbox_does_nothing() {
    let (resolutions, draws, halted) = dispatch(Vec::new());
    assert!(resolutions.is_empty());
    assert!(draws.is_empty());
    assert!(!halted);
}
