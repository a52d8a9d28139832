use muxget::backend::Tool;
use muxget::board::{backend_for, name_of, Added, Board, Download, Removed, Toggle};
use muxget::download::{Filter, Overrides, Status};
use muxget::queue::{Queue, DEFAULT};
use muxget::rule::{parse, Rule};
use muxget::state::SavedDownload;

fn row(id: usize, status: Status) -> Download {
    Download {
        id,
        queue: DEFAULT,
        url: format!("https://example.com/{id}.iso"),
        backend: "aria2c",
        status,
        percent: "0".into(),
        speed: String::new(),
        over: Overrides::default(),
        path: None,
        pid: None,
        tries: 0,
    }
}

fn board_with(statuses: &[Status]) -> Board {
    let mut b = Board::new(vec![Queue::new(DEFAULT, "default", 3)]);
    for (id, s) in statuses.iter().enumerate() {
        b.downloads.push(row(id, s.clone()));
    }
    b.next_id = statuses.len();
    b
}

/// What the app does to fill the free slots, with every start succeeding.
fn pump(b: &mut Board) -> Vec<usize> {
    let mut started = Vec::new();
    while let Some(at) = b.next_to_start() {
        b.started(at, 1000 + at as u32);
        started.push(at);
    }
    started
}

/// What the app does for the pause key, with every signal going through.
fn toggle(b: &mut Board, at: usize) {
    let _ = b.toggle_for(at);
    b.toggle_pause(at, true);
}

fn queue_id(b: &Board, name: &str) -> usize {
    b.queues.iter().find(|q| q.name == name).expect("queue created").id
}

#[test]
fn filter_selects_rows_and_keeps_selection_visible() {
    let mut b = board_with(&[Status::Running, Status::Done, Status::Running]);
    assert_eq!(b.visible(), [0, 1, 2]);

    b.set_filter(Filter::Done);
    assert_eq!(b.visible(), [1]);
    assert_eq!(b.selected, 1, "selection jumps to a shown row");

    b.set_filter(Filter::Active);
    assert_eq!(b.visible(), [0, 2]);
    assert_eq!(b.selected, 0);
}

#[test]
fn selection_moves_within_the_filtered_rows_only() {
    let mut b = board_with(&[Status::Running, Status::Done, Status::Running]);
    b.set_filter(Filter::Active);

    b.move_selection(1);
    assert_eq!(b.selected, 2, "skips the filtered-out row");
    b.move_selection(1);
    assert_eq!(b.selected, 2, "clamps at the end");
    b.move_selection(-5);
    assert_eq!(b.selected, 0, "clamps at the start");
}

#[test]
fn delete_of_the_last_row_moves_the_selection_back() {
    let mut b = board_with(&[Status::Running, Status::Running]);
    b.selected = 1;
    let gone = b.delete(1);
    assert_eq!(gone.id, 1);
    assert_eq!(b.selected, 0);

    b.delete(0);
    assert_eq!(b.selected, 0, "empty list stays in bounds");
}

#[test]
fn queue_starts_oldest_first_and_only_when_a_slot_is_free() {
    let mut b = board_with(&[Status::Running, Status::Queued, Status::Queued]);
    b.queues[0].max_active = 1;

    assert_eq!(b.active_in(DEFAULT), 1);
    assert_eq!(b.next_queued(DEFAULT), Some(1), "oldest queued row is next");

    // Slot taken: nothing may start.
    assert!(pump(&mut b).is_empty());
    assert_eq!(b.downloads[1].status, Status::Queued);

    // Freeing the slot lets exactly one through, the oldest.
    b.downloads[0].status = Status::Done;
    assert_eq!(b.active_in(DEFAULT), 0);
    assert_eq!(pump(&mut b), [1]);
    assert_eq!(b.downloads[1].status, Status::Running);
    assert_eq!(b.downloads[2].status, Status::Queued);
}

#[test]
fn a_start_that_fails_does_not_hold_the_slot() {
    let mut b = board_with(&[Status::Queued, Status::Queued]);
    b.queues[0].max_active = 1;
    let at = b.next_to_start().unwrap();
    b.start_failed(at, "aria2c: not found".into());
    assert!(matches!(b.downloads[0].status, Status::Failed(_)));
    assert_eq!(b.next_to_start(), Some(1), "the next row gets the slot");
}

#[test]
fn cancelling_a_queued_row_removes_it_from_the_queue() {
    let mut b = board_with(&[Status::Queued, Status::Queued]);
    b.queues[0].max_active = 1;
    b.downloads.push(row(9, Status::Running));
    b.next_id = 10;

    assert!(b.cancel(0), "it was still going");
    assert_eq!(b.downloads[0].status, Status::Cancelled);
    assert_eq!(b.next_queued(DEFAULT), Some(1));
    assert!(!b.cancel(0), "a cancelled row has nothing left to stop");
}

#[test]
fn active_filter_shows_queued_rows_too() {
    let mut b = board_with(&[Status::Queued, Status::Running, Status::Done]);
    b.set_filter(Filter::Active);
    assert_eq!(b.visible(), [0, 1]);
}

#[test]
fn failed_filter_covers_cancelled() {
    let b = board_with(&[Status::Cancelled, Status::Failed("exit 1".into()), Status::Done]);
    assert_eq!(b.visible().len(), 3);
    assert!(Filter::Failed.matches(&Status::Cancelled));
    assert!(!Filter::Failed.matches(&Status::Done));
}

#[test]
fn pause_and_resume_toggle_without_losing_the_row() {
    let mut b = board_with(&[Status::Running]);
    b.downloads[0].pid = Some(4242);

    assert_eq!(b.toggle_for(0), Toggle::Stop(Some(4242)));
    b.toggle_pause(0, true);
    assert_eq!(b.downloads[0].status, Status::Paused);
    assert_eq!(b.downloads.len(), 1, "the row stays");
    assert_eq!(b.active_in(DEFAULT), 0, "a paused download frees its slot");

    assert_eq!(b.toggle_for(0), Toggle::Cont(4242));
    b.toggle_pause(0, true);
    assert_eq!(b.downloads[0].status, Status::Running);

    // A signal that did not go through changes nothing.
    b.toggle_pause(0, false);
    assert_eq!(b.downloads[0].status, Status::Running);
}

#[test]
fn pause_only_applies_to_in_flight_downloads() {
    let mut b = board_with(&[Status::Done, Status::Queued, Status::Cancelled]);
    for at in 0..3 {
        toggle(&mut b, at);
    }
    assert_eq!(b.downloads[0].status, Status::Done);
    assert_eq!(b.downloads[1].status, Status::Queued, "queued is not paused");
    assert_eq!(b.downloads[2].status, Status::Cancelled);
}

#[test]
fn a_paused_download_can_still_be_cancelled_and_counts_as_active() {
    let mut b = board_with(&[Status::Running]);
    toggle(&mut b, 0);
    assert_eq!(b.visible(), [0]);

    b.set_filter(Filter::Active);
    assert_eq!(b.visible(), [0], "paused rows show under the active filter");

    assert!(b.cancel(0));
    assert_eq!(b.downloads[0].status, Status::Cancelled);
}

fn saved(queue: usize, status: Status, percent: &str, url: &str) -> SavedDownload {
    SavedDownload { over: Overrides::default(), pid: None, queue, status, percent: percent.into(), url: url.into() }
}

#[test]
fn restore_rebuilds_last_sessions_list() {
    let mut b = board_with(&[]);
    b.queues.push(Queue::new(1, "media", 3));
    b.next_queue_id = 2;

    b.restore(&[
        saved(0, Status::Queued, "42", "https://a.com/x.iso"),
        saved(1, Status::Done, "0", "https://b.com/y.iso"),
        saved(9, Status::Queued, "0", "https://c.com/z.iso"),
        saved(0, Status::Queued, "0", "not a url"),
    ]);

    assert_eq!(b.downloads.len(), 3, "the unroutable url is dropped");
    assert_eq!(b.downloads[0].status, Status::Queued);
    assert_eq!(b.downloads[1].queue, 1, "queue membership is kept");
    assert_eq!(b.downloads[2].queue, DEFAULT, "a vanished queue falls back");

    let ids: Vec<usize> = b.downloads.iter().map(|d| d.id).collect();
    assert_eq!(ids, [0, 1, 2], "ids are reassigned, not reused from the file");
    assert!(b.downloads.iter().all(|d| d.pid.is_none()));
    assert_eq!(b.downloads[0].percent, "42", "progress survives a restart");
    assert_eq!(b.downloads[1].percent, "100", "a done row is full");
    assert_eq!(b.next_id, 3);
}

#[test]
fn a_pause_survives_a_restart_and_resumes_by_requeueing() {
    let mut b = board_with(&[]);
    b.restore(&[saved(0, Status::Paused, "40", "https://a.com/x.iso")]);
    assert_eq!(b.downloads[0].status, Status::Paused, "still paused");

    // The process it was stopped with is gone, so resuming has to requeue it.
    assert_eq!(b.toggle_for(0), Toggle::Requeue);
    b.toggle_pause(0, true);
    assert_eq!(b.downloads[0].status, Status::Queued);
}

#[test]
fn a_download_moves_within_its_queue_and_changes_what_starts_next() {
    let mut b = board_with(&[Status::Queued, Status::Queued, Status::Queued]);
    b.queues[0].paused = true;
    let last = b.downloads[2].id;

    b.selected = 2;
    assert!(b.move_download(-1));
    assert_eq!(b.downloads[1].id, last, "moved up one place");
    assert_eq!(b.downloads[b.selected].id, last, "selection follows it");

    assert!(b.move_download(-1));
    assert_eq!(b.downloads[0].id, last);
    assert_eq!(b.next_queued(b.queues[0].id), Some(0), "it starts first now");

    // The top and bottom hold.
    assert!(!b.move_download(-1));
    assert_eq!(b.downloads[0].id, last);
}

#[test]
fn rules_route_new_downloads_by_url_and_by_size() {
    let mut b = board_with(&[]);
    b.queues[0].paused = true;
    let rules = parse(
        "[[rule]]\nextensions = [\"iso\"]\nqueue = \"large-files\"\ndirectory = \"/tmp/isos\"\n\
         [[rule]]\ndomains = [\"youtube.com\"]\nqueue = \"media\"\nbackend = \"yt-dlp\"\n\
         [[rule]]\nmin_size = \"5G\"\nqueue = \"overnight\"\n",
    );
    let here = b.queue().id;

    b.enqueue("https://example.com/arch.iso", here, Overrides::default(), &rules, "/home/me").unwrap();
    let large = queue_id(&b, "large-files");
    assert_eq!(b.downloads[0].queue, large);
    assert_eq!(b.downloads[0].over.dir, "/tmp/isos");

    b.enqueue("https://www.youtube.com/watch?v=abc", here, Overrides::default(), &rules, "/home/me").unwrap();
    assert_eq!(b.downloads[1].queue, queue_id(&b, "media"));
    assert_eq!(b.downloads[1].over.backend, "yt-dlp");
    assert_eq!(b.downloads[1].backend, "yt-dlp");

    // An unmatched url stays in the queue being viewed.
    b.enqueue("https://example.com/notes.txt", here, Overrides::default(), &rules, "/home/me").unwrap();
    assert_eq!(b.downloads[2].queue, b.queues[0].id);

    // Size is only known once the backend reports it.
    let id = b.downloads[2].id;
    assert!(b.route_by_size(id, 6 * 1024 * 1024 * 1024, &rules));
    assert_eq!(b.downloads[2].queue, queue_id(&b, "overnight"));

    // A small one is left where it is.
    assert!(!b.route_by_size(b.downloads[0].id, 1024, &rules));
    assert_eq!(b.downloads[0].queue, large);
}

#[test]
fn a_rule_directory_under_home_and_a_typed_one() {
    let mut b = board_with(&[]);
    let rules = parse("[[rule]]\nextensions = [\"iso\"]\ndirectory = \"~/ISOs\"\n");
    b.enqueue("https://example.com/a.iso", DEFAULT, Overrides::default(), &rules, "/home/me").unwrap();
    assert_eq!(b.downloads[0].over.dir, "/home/me/ISOs");
    let typed = Overrides { dir: "/mnt/x".into(), ..Overrides::default() };
    b.enqueue("https://example.com/b.iso", DEFAULT, typed, &rules, "/home/me").unwrap();
    assert_eq!(b.downloads[1].over.dir, "/mnt/x", "what was typed wins");
    assert!(b.enqueue("not a url", DEFAULT, Overrides::default(), &rules, "/home/me").is_none());
    assert_eq!(b.downloads.len(), 2);
}

#[test]
fn a_backend_named_by_a_setting_wins_over_the_url() {
    let wget = Overrides { backend: "wget".into(), ..Overrides::default() };
    assert_eq!(backend_for("https://x.com/a.iso", &wget).map(|t| t.name()), Some("wget"));
    let unknown = Overrides { backend: "curl".into(), ..Overrides::default() };
    assert_eq!(backend_for("https://x.com/a.iso", &unknown).map(|t| t.name()), Some("aria2c"));
}

#[test]
fn manual_retry_requeues_failed_and_cancelled_but_not_done() {
    let mut b = board_with(&[Status::Failed("exit 1".into()), Status::Cancelled, Status::Done]);
    b.downloads[0].tries = 9;
    assert!(b.retry(0));
    assert!(b.retry(1));
    assert!(!b.retry(2));
    assert_eq!(b.downloads[0].status, Status::Queued);
    // Past the queue's retry limit still retries by hand, with a fresh budget.
    assert_eq!(b.downloads[0].tries, 0);
    assert_eq!(b.downloads[1].status, Status::Queued);
    assert_eq!(b.downloads[2].status, Status::Done);
}

#[test]
fn a_failure_is_retried_up_to_the_queues_limit() {
    let mut b = board_with(&[Status::Failed("boom".into())]);
    assert!(b.queues[0].set_spec("retry=2"));
    for expected in [1, 2] {
        assert!(b.retry_failed(0));
        assert_eq!(b.downloads[0].tries, expected);
        b.downloads[0].status = Status::Failed("boom".into());
    }
    assert!(!b.retry_failed(0));
    assert_eq!(b.downloads[0].tries, 2, "past the limit the failure sticks");
    assert!(matches!(b.downloads[0].status, Status::Failed(_)));
}

#[test]
fn slot_count_is_clamped() {
    let mut b = board_with(&[]);
    b.set_max_active(0);
    assert_eq!(b.queue().max_active, 1, "never zero, or nothing would ever run");
    b.set_max_active(999);
    assert_eq!(b.queue().max_active, 16);
}

#[test]
fn queues_are_created_renamed_and_switched() {
    let mut b = board_with(&[]);
    assert_eq!(b.queue().name, "default");
    assert_eq!(b.add_queue("media"), Added::Made);
    assert_eq!(b.queue().name, "media", "switches to the new queue");
    assert_eq!(b.add_queue("   "), Added::Blank);
    assert_eq!(b.add_queue("default"), Added::Taken);
    assert_eq!(b.queues.len(), 2);

    assert!(b.rename_queue(1, "video"));
    assert_eq!(b.queues[1].name, "video");
    assert!(!b.rename_queue(1, "default"), "cannot collide with another name");

    b.cycle_queue(1);
    assert_eq!(b.current, 0, "wraps around");
    b.cycle_queue(-1);
    assert_eq!(b.current, 1, "and backwards");
}

#[test]
fn each_queue_has_its_own_slots_and_rows() {
    let mut b = board_with(&[Status::Queued]);
    b.add_queue("media");
    let media = b.queue().id;
    let mut r = row(7, Status::Running);
    r.queue = media;
    b.downloads.push(r);
    b.next_id = 8;

    assert_eq!(b.visible(), [1], "only the current queue's rows are listed");
    assert_eq!(b.active_in(media), 1);
    assert_eq!(b.active_in(DEFAULT), 0);
    assert_eq!(b.queued_in(DEFAULT), 1, "the queued row belongs to default");
    assert_eq!(b.queued_in(media), 0, "the other queue is untouched");
}

#[test]
fn deleting_a_queue_moves_its_downloads_to_default() {
    let mut b = board_with(&[Status::Queued]);
    b.add_queue("media");
    let media = b.queue().id;
    b.downloads[0].queue = media;

    assert_eq!(b.delete_queue(1), Removed::Gone);
    assert_eq!(b.queues.len(), 1);
    assert_eq!(b.queues[0].name, "default");
    assert_eq!(b.downloads.len(), 1, "no download was dropped");
    assert_eq!(b.downloads[0].queue, DEFAULT);
}

#[test]
fn the_default_queue_cannot_be_deleted() {
    let mut b = board_with(&[]);
    assert_eq!(b.delete_queue(0), Removed::Default);
    assert_eq!(b.queues[0].name, "default");
    assert_eq!(b.delete_queue(5), Removed::Missing);
}

#[test]
fn queues_reorder_without_moving_their_downloads() {
    let mut b = board_with(&[Status::Queued]);
    b.add_queue("media");
    let media = b.queue().id;
    b.downloads[0].queue = media;

    assert!(b.move_queue(-1));
    assert_eq!(b.current, 0, "the moved queue stays selected");
    let names: Vec<&str> = b.queues.iter().map(|q| q.name.as_str()).collect();
    assert_eq!(names, ["media", "default"]);
    assert_eq!(b.downloads[0].queue, media, "membership is by id, not position");

    // The ends do not wrap; there is nowhere further to go.
    assert!(!b.move_queue(-1));
    assert_eq!(b.queues[0].name, "media");
}

#[test]
fn pausing_a_queue_freezes_it_and_starts_nothing() {
    let mut b = board_with(&[Status::Running, Status::Queued]);
    b.queues[0].max_active = 3;

    let rows = b.set_queue_paused(0, true);
    assert_eq!(rows, [0], "only the running row is frozen");
    for at in rows {
        toggle(&mut b, at);
    }
    assert!(b.queues[0].paused);
    assert_eq!(b.downloads[0].status, Status::Paused);

    // A free slot must not start the queued row while the queue is paused.
    assert!(pump(&mut b).is_empty());
    assert_eq!(b.downloads[1].status, Status::Queued);

    b.downloads[0].pid = Some(77);
    let rows = b.set_queue_paused(0, false);
    for at in rows {
        toggle(&mut b, at);
    }
    assert!(!b.queues[0].paused);
    assert_eq!(b.downloads[0].status, Status::Running, "rows resume with it");
}

#[test]
fn a_paused_queue_does_not_block_another_queue() {
    let mut b = board_with(&[Status::Queued]);
    b.add_queue("media");
    let media = b.queue().id;
    let mut r = row(7, Status::Queued);
    r.queue = media;
    b.downloads.push(r);
    b.next_id = 8;

    b.set_queue_paused(0, true);
    assert!(b.queues[0].paused);
    assert!(!b.queues[1].paused, "the other queue keeps running");
    assert_eq!(pump(&mut b), [1]);
    assert_eq!(b.active_in(media), 1);
    assert_eq!(b.downloads[0].status, Status::Queued, "stays parked");
    assert!(b.any_paused());
}

#[test]
fn a_list_without_a_default_queue_gets_one() {
    let b = Board::new(vec![Queue::new(3, "media", 3), Queue::new(3, "copy", 3)]);
    let names: Vec<&str> = b.queues.iter().map(|q| q.name.as_str()).collect();
    assert_eq!(names, ["default", "media"], "a repeated id is dropped");
    assert_eq!(b.next_queue_id, 4);
}

#[test]
fn a_row_is_named_by_the_last_part_of_its_url_path() {
    assert_eq!(name_of("https://example.com/a/disk.iso?token=1#top"), "disk.iso");
    assert_eq!(name_of("https://example.com/releases/"), "releases");
    assert_eq!(name_of("https://example.com"), "example.com");
    assert_eq!(name_of("///"), "///");
    assert_eq!(name_of(""), "");
}

#[test]
fn a_rule_pattern_routes_each_channel_to_its_own_directory() {
    let mut b = board_with(&[]);
    let mut channel = Rule::default();
    channel.set(2, "youtube.com/@*"); // pattern
    channel.set(5, "/srv/yt/$1"); // directory
    let mut project = Rule::default();
    project.set(2, "example.com/*/");
    project.set(5, "/srv/$1");
    let rules = vec![channel, project];

    // A plain url routes on the way in.
    b.enqueue("https://example.com/rust/x.iso", DEFAULT, Overrides::default(), &rules, "/home/me").unwrap();
    b.enqueue("https://other.com/y.iso", DEFAULT, Overrides::default(), &rules, "/home/me").unwrap();
    let dirs: Vec<&str> = b.downloads.iter().map(|d| d.over.dir.as_str()).collect();
    assert_eq!(dirs, ["/srv/rust", ""], "one directory per capture");

    // A channel's own routing reaches the entries it expands into, which
    // match no rule written about a channel.
    let mut over = Overrides::default();
    let queue = b.route("https://youtube.com/@mitocw/videos", DEFAULT, &mut over, &rules, "/home/me");
    assert_eq!(over.dir, "/srv/yt/mitocw", "decided from the playlist url, not its entries");
    b.enqueue("https://youtube.com/watch?v=abc", queue, over, &rules, "/home/me").unwrap();
    assert_eq!(b.downloads[2].over.dir, "/srv/yt/mitocw");
}

#[test]
fn a_queue_named_by_capture_is_made_and_an_unfillable_one_is_left_out() {
    let mut b = board_with(&[]);
    let mut by_user = Rule::default();
    by_user.set(2, "github.com/*/");
    by_user.set(4, "gh-$1");
    let mut broken = Rule::default();
    broken.set(1, "gitlab.com");
    broken.set(4, "gl-$1");
    let rules = vec![by_user, broken];
    b.enqueue("https://github.com/rust-lang/rust/archive.zip", DEFAULT, Overrides::default(), &rules, "/home/me").unwrap();
    assert_eq!(b.downloads[0].queue, queue_id(&b, "gh-rust-lang"));
    b.enqueue("https://gitlab.com/x/y.zip", DEFAULT, Overrides::default(), &rules, "/home/me").unwrap();
    assert_eq!(b.downloads[1].queue, DEFAULT, "a $1 with nothing to fill it names no queue");
}

#[test]
fn a_resync_requeues_what_has_ended_in_that_queue_only() {
    let mut b = board_with(&[
        Status::Done,
        Status::Failed("x".into()),
        Status::Cancelled,
        Status::Running,
        Status::Queued,
        Status::Done,
    ]);
    b.add_queue("media");
    let media = queue_id(&b, "media");
    b.downloads[5].queue = media;
    b.downloads[1].tries = 2;
    assert_eq!(b.sync_queue(0), 3);
    let statuses: Vec<Status> = b.downloads.iter().map(|d| d.status.clone()).collect();
    assert_eq!(
        statuses,
        [Status::Queued, Status::Queued, Status::Queued, Status::Running, Status::Queued, Status::Done]
    );
    assert_eq!(b.downloads[1].tries, 0);
    assert_eq!(b.sync_queue(0), 0, "nothing left that ended");
}

#[test]
fn a_drained_queue_fires_once_and_a_one_time_run_ends_paused() {
    let mut b = board_with(&[Status::Running, Status::Done]);
    b.queues[0].set_spec("once after=echo hi");
    assert!(b.queues[0].once);
    assert!(!b.drained(0), "still running");
    assert!(!b.queues[0].fired);
    b.downloads[0].status = Status::Done;
    assert!(b.drained(0), "drained for the first time");
    assert!(b.queues[0].paused, "a one-time run ends paused");
    assert!(!b.queues[0].once, "and without its schedule");
    assert!(!b.drained(0), "nothing left to act on");

    let mut c = board_with(&[Status::Done]);
    c.queues[0].set_spec("shutdown");
    assert!(c.drained(0));
    assert!(c.queues[0].fired);
    assert!(!c.drained(0), "fires once per drain");
    c.downloads.push(row(1, Status::Queued));
    assert!(!c.drained(0));
    assert!(!c.queues[0].fired, "new work arms it again");

    let mut quiet = board_with(&[Status::Done]);
    assert!(!quiet.drained(0), "no drain action");
    let mut empty = board_with(&[]);
    empty.queues[0].set_spec("shutdown");
    assert!(!empty.drained(0), "a queue that never had work has not drained");
}

#[test]
fn a_finished_process_ends_its_row_as_the_exit_code_says() {
    let mut b = board_with(&[Status::Running, Status::Running, Status::Running, Status::Running, Status::Paused]);
    b.downloads[0].pid = Some(7);
    assert_eq!(b.finish(0, Tool::Aria2, Some(0)), Some(Status::Done));
    assert_eq!(b.downloads[0].percent, "100");
    assert_eq!(b.downloads[0].pid, None);
    assert_eq!(b.finish(1, Tool::Wget, Some(8)), Some(Status::Done), "wget's tolerated code");
    assert_eq!(b.finish(2, Tool::Aria2, Some(3)), Some(Status::Failed("resource not found".into())));
    assert_eq!(b.downloads[2].percent, "0");
    assert_eq!(b.finish(3, Tool::YtDlp, None), Some(Status::Failed("killed by a signal".into())));
    assert_eq!(b.finish(4, Tool::Aria2, Some(0)), None, "a paused row keeps what the user made it");
    assert_eq!(b.downloads[4].status, Status::Paused);
    assert_eq!(b.finish(99, Tool::Aria2, Some(0)), None);
}
