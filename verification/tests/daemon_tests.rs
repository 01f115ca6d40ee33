//! End-to-end daemon tests: ticket minting, per-day deduplication,
//! deferred delivery, first-in first-out routing, and speed values.

use speed_daemon::daemon::Daemon;
use speed_daemon::engine::{day, encoded_speed};
use speed_daemon::msg::{IAmCamera, Plate, Ticket};

fn plate(p: &str, t: u32) -> Plate {
    Plate { plate: p.to_string(), timestamp: t }
}

fn pull_all(daemon: &mut Daemon, id: u64) -> Vec<Ticket> {
    let mut out = Vec::new();
    while let Some(t) = daemon.peek_output(id) {
        daemon.confirm_output(id);
        out.push(t);
    }
    out
}

#[test]
fn basic_ticket_after_dispatcher_connects() {
    // Two cameras on road 123, limit 60; 1 mile in 45 seconds is 80 mph.
    let mut daemon = Daemon::new();
    let camera1 = IAmCamera { road: 123, mile: 8, limit: 60 };
    let camera2 = IAmCamera { road: 123, mile: 9, limit: 60 };
    daemon.record_plate(camera1, plate("UN1X", 0));
    daemon.record_plate(camera2, plate("UN1X", 45));

    daemon.register_dispatcher(1, vec![123]);
    let tickets = pull_all(&mut daemon, 1);
    assert_eq!(
        tickets,
        vec![Ticket {
            plate: "UN1X".to_string(),
            road: 123,
            mile1: 8,
            timestamp1: 0,
            mile2: 9,
            timestamp2: 45,
            speed: 8000,
        }]
    );
}

#[test]
fn dispatcher_pre_registered_gets_ticket_immediately() {
    let mut daemon = Daemon::new();
    let camera1 = IAmCamera { road: 123, mile: 8, limit: 60 };
    let camera2 = IAmCamera { road: 123, mile: 9, limit: 60 };
    daemon.register_dispatcher(1, vec![123]);
    daemon.record_plate(camera1, plate("UN1X", 0));
    assert!(daemon.peek_output(1).is_none());
    daemon.record_plate(camera2, plate("UN1X", 45));
    let t = daemon.peek_output(1).expect("ticket owed right after the second plate");
    assert_eq!(t.speed, 8000);
}

#[test]
fn per_day_dedup_suppresses_second_ticket() {
    // Three observations on road 1, limit 10, all on day zero: the
    // second violating pair covers an already claimed day.
    let mut daemon = Daemon::new();
    let cam_a = IAmCamera { road: 1, mile: 0, limit: 10 };
    let cam_b = IAmCamera { road: 1, mile: 1000, limit: 10 };
    let cam_c = IAmCamera { road: 1, mile: 2000, limit: 10 };
    daemon.record_plate(cam_a, plate("AAA", 0));
    daemon.record_plate(cam_b, plate("AAA", 3600));
    daemon.record_plate(cam_c, plate("AAA", 7200));

    daemon.register_dispatcher(9, vec![1]);
    let tickets = pull_all(&mut daemon, 9);
    assert_eq!(tickets.len(), 1);
    assert_eq!(tickets[0].timestamp1, 0);
    assert_eq!(tickets[0].timestamp2, 3600);
}

#[test]
fn tickets_on_distinct_days_both_mint() {
    let mut daemon = Daemon::new();
    let cam_a = IAmCamera { road: 5, mile: 0, limit: 10 };
    let cam_b = IAmCamera { road: 5, mile: 1000, limit: 10 };
    daemon.record_plate(cam_a, plate("BBB", 0));
    daemon.record_plate(cam_b, plate("BBB", 3600));
    // Two days later, another violating pair on fresh days.
    let cam_c = IAmCamera { road: 5, mile: 2000, limit: 10 };
    let cam_d = IAmCamera { road: 5, mile: 3000, limit: 10 };
    daemon.record_plate(cam_c, plate("BBB", 86400 * 2));
    daemon.record_plate(cam_d, plate("BBB", 86400 * 2 + 3600));

    daemon.register_dispatcher(4, vec![5]);
    let tickets = pull_all(&mut daemon, 4);
    assert_eq!(tickets.len(), 2);
}

#[test]
fn deferred_ticket_waits_for_dispatcher() {
    let mut daemon = Daemon::new();
    let camera1 = IAmCamera { road: 7, mile: 10, limit: 50 };
    let camera2 = IAmCamera { road: 7, mile: 11, limit: 50 };
    daemon.record_plate(camera1, plate("DEF", 0));
    daemon.record_plate(camera2, plate("DEF", 60));
    // No dispatcher serves road 7 yet; nothing is owed to anyone.
    assert!(daemon.peek_output(1).is_none());

    daemon.register_dispatcher(1, vec![6, 7, 8]);
    let tickets = pull_all(&mut daemon, 1);
    assert_eq!(tickets.len(), 1);
    assert_eq!(tickets[0].road, 7);
}

#[test]
fn per_road_fifo_order_is_kept() {
    let mut daemon = Daemon::new();
    let cam_a = IAmCamera { road: 2, mile: 0, limit: 10 };
    let cam_b = IAmCamera { road: 2, mile: 1000, limit: 10 };
    daemon.record_plate(cam_a, plate("CAR1", 0));
    daemon.record_plate(cam_b, plate("CAR1", 3600));
    daemon.record_plate(cam_a, plate("CAR2", 100_000 ));
    daemon.record_plate(cam_b, plate("CAR2", 103_600));
    daemon.record_plate(cam_a, plate("CAR3", 200_000));
    daemon.record_plate(cam_b, plate("CAR3", 203_600));

    daemon.register_dispatcher(3, vec![2]);
    let tickets = pull_all(&mut daemon, 3);
    let plates: Vec<String> = tickets.into_iter().map(|t| t.plate).collect();
    assert_eq!(plates, vec!["CAR1", "CAR2", "CAR3"]);
}

#[test]
fn unregistered_dispatcher_leaves_unsent_tickets_queued() {
    let mut daemon = Daemon::new();
    let cam_a = IAmCamera { road: 11, mile: 0, limit: 10 };
    let cam_b = IAmCamera { road: 11, mile: 1000, limit: 10 };
    daemon.register_dispatcher(1, vec![11]);
    daemon.record_plate(cam_a, plate("GONE", 0));
    daemon.record_plate(cam_b, plate("GONE", 3600));
    assert!(daemon.peek_output(1).is_some());
    // The dispatcher disconnects without the ticket being written.
    daemon.unregister_dispatcher(1);
    assert!(!daemon.has_dispatcher(1));
    assert!(daemon.peek_output(1).is_none());
    // A later dispatcher for the road drains it.
    daemon.register_dispatcher(2, vec![11]);
    let tickets = pull_all(&mut daemon, 2);
    assert_eq!(tickets.len(), 1);
    assert_eq!(tickets[0].plate, "GONE");
}

#[test]
fn road_passes_to_remaining_dispatcher() {
    let mut daemon = Daemon::new();
    daemon.register_dispatcher(1, vec![30]);
    daemon.register_dispatcher(2, vec![30]);
    let cam_a = IAmCamera { road: 30, mile: 0, limit: 10 };
    let cam_b = IAmCamera { road: 30, mile: 1000, limit: 10 };
    daemon.record_plate(cam_a, plate("PASS", 0));
    daemon.record_plate(cam_b, plate("PASS", 3600));
    // The first dispatcher serves road 30; when it leaves, its unsent
    // ticket passes to the second.
    daemon.unregister_dispatcher(1);
    let tickets = pull_all(&mut daemon, 2);
    assert_eq!(tickets.len(), 1);
    assert_eq!(tickets[0].plate, "PASS");
}

#[test]
fn first_reported_limit_wins() {
    let mut daemon = Daemon::new();
    // The second camera reports a lower limit, which is ignored: with
    // the first-reported limit of 100 mph, 80 mph is no violation.
    let cam_a = IAmCamera { road: 40, mile: 8, limit: 100 };
    let cam_b = IAmCamera { road: 40, mile: 9, limit: 10 };
    daemon.record_plate(cam_a, plate("LIM", 0));
    daemon.record_plate(cam_b, plate("LIM", 45));
    daemon.register_dispatcher(1, vec![40]);
    assert!(daemon.peek_output(1).is_none());
}

#[test]
fn equal_timestamps_make_no_ticket() {
    let mut daemon = Daemon::new();
    let cam_a = IAmCamera { road: 50, mile: 0, limit: 10 };
    let cam_b = IAmCamera { road: 50, mile: 1000, limit: 10 };
    daemon.record_plate(cam_a, plate("SAME", 77));
    daemon.record_plate(cam_b, plate("SAME", 77));
    daemon.register_dispatcher(1, vec![50]);
    assert!(daemon.peek_output(1).is_none());
}

#[test]
fn observations_pair_across_arrival_order() {
    // A late-arriving middle observation violates with both neighbours,
    // but only one ticket fits on the day.
    let mut daemon = Daemon::new();
    let cam_a = IAmCamera { road: 60, mile: 0, limit: 10 };
    let cam_b = IAmCamera { road: 60, mile: 2000, limit: 10 };
    let cam_m = IAmCamera { road: 60, mile: 1000, limit: 10 };
    daemon.record_plate(cam_a, plate("MID", 0));
    daemon.record_plate(cam_b, plate("MID", 7200));
    daemon.record_plate(cam_m, plate("MID", 3600));
    daemon.register_dispatcher(1, vec![60]);
    let tickets = pull_all(&mut daemon, 1);
    assert_eq!(tickets.len(), 1);
}

#[test]
fn speed_values_are_rounded_hundredths() {
    // 1 mile in 45 seconds: 80 mph exactly.
    assert_eq!(encoded_speed(1, 45), 8000);
    // 1 mile in 3600 seconds: 1 mph.
    assert_eq!(encoded_speed(1, 3600), 100);
    // 3 miles in 7200 seconds: 1.5 mph, encoded 150.
    assert_eq!(encoded_speed(3, 7200), 150);
    // 3 miles in 7 seconds: 1542.857... mph rounds to 154286.
    // That exceeds the largest encodable speed and is capped.
    assert_eq!(encoded_speed(3, 7), 0xffff);
    // 1 mile in 41 seconds: 87.804... mph, encoded 8780.
    assert_eq!(encoded_speed(1, 41), 8780);
    // Half units round up: 1 mile in 4800 seconds is 0.75 mph,
    // encoded exactly 75; 1 mile in 9600 seconds is 0.375 mph,
    // rounding 37.5 up to 38.
    assert_eq!(encoded_speed(1, 4800), 75);
    assert_eq!(encoded_speed(1, 9600), 38);
}

#[test]
fn day_indices() {
    assert_eq!(day(0), 0);
    assert_eq!(day(86399), 0);
    assert_eq!(day(86400), 1);
    assert_eq!(day(2 * 86400 + 5), 2);
}
