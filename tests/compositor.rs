use orbital::event::{Event, EVENT_KEY, EVENT_MOUSE, EVENT_QUIT, EVENT_SIZE};
use orbital::packet::{Packet, PACKET_SIZE, SYS_CLOSE, SYS_OPEN, SYS_READ, SYS_WRITE};
use orbital::path::parse_request;
use orbital::scheme::{Error, OrbitalScheme, EBADF};
use orbital::window::Window;

fn chars(s: &str) -> Vec<char> {
    s.chars().collect()
}

fn mouse(x: i64, y: i64, pressed: bool) -> Event {
    Event { code: EVENT_MOUSE, a: x, b: y, c: if pressed { 1 } else { 0 }, d: 0 }
}

fn queued(scheme: &OrbitalScheme, id: usize) -> Vec<Event> {
    scheme.window(id).unwrap().events.iter().cloned().collect()
}

#[test]
fn open_click_scenario() {
    let mut s = OrbitalScheme::new(800, 600);
    assert_eq!(s.open("-1/-1/100/50/Test", 0, 0), Ok(1));
    let w = s.window(1).unwrap();
    assert_eq!((w.x, w.y, w.width, w.height), (20, 20, 100, 50));
    assert_eq!(w.title, chars("Test"));
    assert_eq!(s.order(), vec![1]);

    assert_eq!(s.open("-1/-1/100/50/Test", 0, 0), Ok(2));
    let w = s.window(2).unwrap();
    assert_eq!((w.x, w.y), (40, 40));
    assert_eq!(s.order(), vec![2, 1]);

    s.input(mouse(45, 45, true));
    assert_eq!(queued(&s, 2), vec![Event { code: EVENT_MOUSE, a: 5, b: 5, c: 1, d: 0 }]);
    assert!(queued(&s, 1).is_empty());
    assert_eq!(s.order(), vec![2, 1]);

    s.input(mouse(25, 25, true));
    assert_eq!(queued(&s, 1), vec![Event { code: EVENT_MOUSE, a: 5, b: 5, c: 1, d: 0 }]);
    assert_eq!(queued(&s, 2).len(), 1);
    assert_eq!(s.order(), vec![1, 2]);
}

#[test]
fn handles_are_consecutive() {
    let mut s = OrbitalScheme::new(800, 600);
    let mut last = 0;
    for _ in 0..5 {
        let id = s.open("0/0/10/10/w", 0, 0).unwrap();
        assert!(id > last);
        last = id;
    }
    assert_eq!(last, 5);
    assert_eq!(s.close(3), Ok(0));
    assert_eq!(s.open("", 0, 0), Ok(6));
}

#[test]
fn order_matches_windows() {
    let mut s = OrbitalScheme::new(800, 600);
    s.open("0/0/10/10/a", 0, 0).unwrap();
    s.open("100/100/10/10/b", 0, 0).unwrap();
    s.open("200/200/10/10/c", 0, 0).unwrap();
    assert_eq!(s.order(), vec![3, 2, 1]);
    s.input(mouse(105, 105, true));
    assert_eq!(s.order(), vec![2, 3, 1]);
    assert_eq!(s.close(3), Ok(0));
    assert_eq!(s.order(), vec![2, 1]);
    assert!(s.window(3).is_none());
    s.input(mouse(5, 5, true));
    assert_eq!(s.order(), vec![1, 2]);
}

#[test]
fn overlap_goes_to_upper_window() {
    let mut s = OrbitalScheme::new(800, 600);
    let b = s.open("50/50/100/100/B", 0, 0).unwrap();
    let a = s.open("100/100/100/100/A", 0, 0).unwrap();
    s.input(mouse(120, 130, true));
    assert_eq!(queued(&s, a), vec![Event { code: EVENT_MOUSE, a: 20, b: 30, c: 1, d: 0 }]);
    assert!(queued(&s, b).is_empty());
    assert_eq!(s.order(), vec![a, b]);
}

#[test]
fn bad_handles_fail() {
    let mut s = OrbitalScheme::new(800, 600);
    let mut buf = [0u8; 80];
    let bad = Err(Error { errno: EBADF });
    assert_eq!(s.read(7, &mut buf), bad);
    assert_eq!(s.write(7, &[1, 2, 3]), bad);
    assert_eq!(s.close(7), bad);
    let id = s.open("", 0, 0).unwrap();
    assert_eq!(id, 1);
    assert_eq!(s.close(id), Ok(0));
    assert_eq!(s.close(id), bad);
    assert_eq!(s.read(id, &mut buf), bad);
    assert_eq!(s.write(id, &[1]), bad);
}

#[test]
fn empty_path_opens_blank_window() {
    let mut s = OrbitalScheme::new(800, 600);
    assert_eq!(s.open("", 0, 0), Ok(1));
    let w = s.window(1).unwrap();
    assert_eq!((w.x, w.y, w.width, w.height), (0, 0, 0, 0));
    assert!(w.title.is_empty());
}

#[test]
fn auto_placement_cascades() {
    let mut s = OrbitalScheme::new(800, 600);
    let mut seen = Vec::new();
    for _ in 0..3 {
        let id = s.open("-1/-1/10/10/t", 0, 0).unwrap();
        let w = s.window(id).unwrap();
        seen.push((w.x, w.y));
    }
    assert_eq!(seen, vec![(20, 20), (40, 40), (60, 60)]);
    assert_eq!(s.next_placement(), (80, 80));
}

#[test]
fn auto_placement_wraps_at_margin() {
    let mut s = OrbitalScheme::new(100, 1000);
    let mut xs = Vec::new();
    for _ in 0..4 {
        let id = s.open("-5/-5/10/10/t", 0, 0).unwrap();
        xs.push(s.window(id).unwrap().x);
    }
    assert_eq!(xs, vec![20, 40, 60, 20]);
}

#[test]
fn negative_x_alone_is_kept() {
    let mut s = OrbitalScheme::new(800, 600);
    let id = s.open("-30/15/10/10/t", 0, 0).unwrap();
    let w = s.window(id).unwrap();
    assert_eq!((w.x, w.y), (-30, 15));
    assert_eq!(s.next_placement(), (20, 20));
}

#[test]
fn second_frame_is_idle() {
    let mut s = OrbitalScheme::new(800, 600);
    s.open("0/0/10/10/a", 0, 0).unwrap();
    s.open("0/0/10/10/b", 0, 0).unwrap();
    assert_eq!(s.compose(), Some(vec![1, 2]));
    let mut buf = [0u8; 40];
    assert_eq!(s.read(1, &mut buf), Ok(0));
    s.input_all(&vec![]);
    assert_eq!(s.compose(), None);
    assert!(!s.needs_redraw());
    assert_eq!(s.write(1, &[9]), Ok(1));
    assert_eq!(s.compose(), Some(vec![1, 2]));
}

#[test]
fn path_fields_and_title() {
    let r = parse_request(&chars("10/-20/30/40/a/b/c"));
    assert_eq!((r.x, r.y, r.width, r.height), (10, -20, 30, 40));
    assert_eq!(r.title, chars("a/b/c"));
    let r = parse_request(&chars("x/+7/2147483648/-2147483648"));
    assert_eq!((r.x, r.y, r.width, r.height), (0, 7, 0, -2147483648));
    assert!(r.title.is_empty());
    let r = parse_request(&chars("5//-/"));
    assert_eq!((r.x, r.y, r.width, r.height), (5, 0, 0, 0));
    assert!(r.title.is_empty());
    let r = parse_request(&chars("1/2/3/4/"));
    assert_eq!((r.x, r.y, r.width, r.height), (1, 2, 3, 4));
    assert!(r.title.is_empty());
}

#[test]
fn window_hit_regions() {
    let w = Window::new(10, 30, 100, 50, chars("t"));
    assert!(w.contains(10, 30));
    assert!(w.contains(109, 79));
    assert!(!w.contains(110, 30));
    assert!(!w.contains(10, 29));
    assert!(w.title_contains(10, 12));
    assert!(w.title_contains(109, 29));
    assert!(!w.title_contains(10, 11));
    assert!(!w.title_contains(10, 30));
    assert!(w.exit_contains(100, 20));
    assert!(!w.exit_contains(99, 20));
}

#[test]
fn window_write_truncates() {
    let mut w = Window::new(0, 0, 1, 2, chars("t"));
    let data: Vec<u8> = (0..12).collect();
    assert_eq!(w.write(&data), 8);
    assert_eq!(w.data, (0..8).collect::<Vec<u8>>());
    assert_eq!(w.write(&[42, 43]), 2);
    assert_eq!(w.data, vec![42, 43, 2, 3, 4, 5, 6, 7]);
    let mut neg = Window::new(0, 0, -4, 3, vec![]);
    assert_eq!(neg.width, 0);
    assert_eq!(neg.write(&[1, 2]), 0);
}

#[test]
fn window_read_pops_what_fits() {
    let mut w = Window::new(0, 0, 1, 1, vec![]);
    let mut buf = [0u8; 100];
    assert_eq!(w.read(&mut buf), 0);
    w.event(Event { code: EVENT_KEY, a: 1, b: 2, c: 3, d: 4 });
    w.event(Event { code: EVENT_KEY, a: 5, b: 0, c: 0, d: 0 });
    w.event(Event { code: EVENT_KEY, a: 6, b: 0, c: 0, d: 0 });
    assert_eq!(w.read(&mut buf), 2 * EVENT_SIZE);
    assert_eq!(buf[0], EVENT_KEY as u8);
    assert_eq!(buf[8], 1);
    assert_eq!(buf[16], 2);
    assert_eq!(buf[24], 3);
    assert_eq!(buf[32], 4);
    assert_eq!(buf[48], 5);
    assert_eq!(buf[80], 0);
    assert_eq!(w.events.len(), 1);
    assert_eq!(w.read(&mut buf), EVENT_SIZE);
    assert_eq!(buf[8], 6);
    assert!(w.events.is_empty());
}

#[test]
fn keys_go_to_focused_window() {
    let mut s = OrbitalScheme::new(800, 600);
    let key = Event { code: EVENT_KEY, a: 65, b: 0, c: 0, d: 0 };
    s.input(key);
    s.open("0/0/10/10/a", 0, 0).unwrap();
    s.open("50/50/10/10/b", 0, 0).unwrap();
    s.input(key);
    assert_eq!(queued(&s, 2), vec![key]);
    assert!(queued(&s, 1).is_empty());
}

#[test]
fn pointer_release_does_not_focus() {
    let mut s = OrbitalScheme::new(800, 600);
    s.open("0/0/10/10/a", 0, 0).unwrap();
    s.open("50/50/10/10/b", 0, 0).unwrap();
    s.input(mouse(5, 5, false));
    assert_eq!(queued(&s, 1), vec![Event { code: EVENT_MOUSE, a: 5, b: 5, c: 0, d: 0 }]);
    assert_eq!(s.order(), vec![2, 1]);
    assert_eq!(s.cursor(), (5, 5));
}

#[test]
fn title_bar_drags_window() {
    let mut s = OrbitalScheme::new(800, 600);
    let a = s.open("100/100/50/50/a", 0, 0).unwrap();
    let b = s.open("300/300/50/50/b", 0, 0).unwrap();
    s.input(mouse(110, 90, true));
    assert!(s.is_dragging());
    assert_eq!(s.order(), vec![a, b]);
    s.input(mouse(130, 95, true));
    let w = s.window(a).unwrap();
    assert_eq!((w.x, w.y), (120, 105));
    s.input(mouse(130, 95, false));
    assert!(!s.is_dragging());
    assert!(queued(&s, a).is_empty());
}

#[test]
fn close_button_sends_quit() {
    let mut s = OrbitalScheme::new(800, 600);
    let a = s.open("100/100/50/50/a", 0, 0).unwrap();
    s.input(mouse(145, 90, true));
    assert!(!s.is_dragging());
    assert_eq!(queued(&s, a), vec![Event::quit()]);
    assert_eq!(Event::quit().code, EVENT_QUIT);
    assert!(s.window(a).is_some());
}

#[test]
fn packet_round_trip() {
    let p = Packet { op: SYS_WRITE, id: 3, a: 0x1122334455667788, b: 9, result: u64::MAX };
    let bytes = p.to_bytes();
    assert_eq!(bytes.len(), PACKET_SIZE);
    assert_eq!(bytes[16], 0x88);
    assert_eq!(bytes[23], 0x11);
    assert_eq!(Packet::from_bytes(&bytes), Some(p));
    assert_eq!(Packet::from_bytes(&bytes[..39]), None);
}

#[test]
fn packets_dispatch() {
    let mut s = OrbitalScheme::new(800, 600);
    let mut p = Packet { op: SYS_OPEN, id: 0, a: 0, b: 0, result: 0 };
    let mut path = "-1/-1/4/4/caf\u{e9}".as_bytes().to_vec();
    s.handle(&mut p, &mut path);
    assert_eq!(p.result, 1);
    assert_eq!(s.window(1).unwrap().title, chars("caf\u{e9}"));
    assert_eq!(s.window(1).unwrap().x, 20);

    let mut data = vec![7u8; 3];
    let mut p = Packet { op: SYS_WRITE, id: 1, a: 0, b: 3, result: 0 };
    s.handle(&mut p, &mut data);
    assert_eq!(p.result, 3);
    assert_eq!(s.window(1).unwrap().data, vec![7, 7, 7]);

    let mut buf = vec![0u8; 40];
    let mut p = Packet { op: SYS_READ, id: 2, a: 0, b: 40, result: 0 };
    s.handle(&mut p, &mut buf);
    assert_eq!(p.result as i64, -EBADF as i64);

    let mut p = Packet { op: 99, id: 1, a: 0, b: 0, result: 0 };
    s.handle(&mut p, &mut buf);
    assert_eq!(p.result as i64, -38);

    let mut p = Packet { op: SYS_CLOSE, id: 1, a: 0, b: 0, result: 5 };
    s.handle(&mut p, &mut buf);
    assert_eq!(p.result, 0);
    assert!(s.order().is_empty());
}
