use devport::app::{App, Command, FooterLine, Key};
use devport::ports::{default_ports, monitored_ports};
use devport::rows::DisplayRow;
use devport::groups::compute_groups;
use devport::process::{
    get_process_info, parse_lsof_listing, scan_ports, sort_by_port, PortListing, PortProcess,
    ProcessRecord,
};
use devport::screen::{
    command_line_label, description_cell, fit_command, group_header_label, padded, pid_cell,
    port_cell, port_color, PortColor,
};

fn proc_(port: u16, pid: i32, ppid: Option<i32>, project: Option<&str>) -> PortProcess {
    PortProcess {
        port,
        pid,
        ppid,
        name: "node".to_string(),
        command: String::new(),
        command_full: String::new(),
        description: String::new(),
        project: project.map(|s| s.to_string()),
    }
}

fn row_kinds(rows: &[DisplayRow]) -> Vec<String> {
    rows.iter()
        .map(|r| match r {
            DisplayRow::GroupHeader { name, count } => format!("H:{}:{}", name, count),
            DisplayRow::Process { process_index } => format!("P:{}", process_index),
        })
        .collect()
}

#[test]
fn default_ports_are_the_common_dev_ports() {
    assert_eq!(
        default_ports(),
        vec![3000, 3001, 3002, 3003, 4200, 5000, 5001, 5173, 8000, 8080, 8081, 5432, 3306, 6379, 27017, 9229]
    );
}

#[test]
fn monitored_ports_are_sorted_and_unique() {
    let ports = monitored_ports(&vec![9000, 3000, 7777, 9000]);
    assert_eq!(
        ports,
        vec![3000, 3001, 3002, 3003, 3306, 4200, 5000, 5001, 5173, 5432, 6379, 7777, 8000, 8080, 8081, 9000, 9229, 27017]
    );
}

#[test]
fn groups_by_project_then_parent_then_other() {
    let ps = vec![
        proc_(3000, 10, Some(1), Some("web")),
        proc_(3001, 11, Some(7), None),
        proc_(3002, 12, Some(7), None),
        proc_(3003, 13, Some(8), None),
        proc_(4200, 14, None, Some("api")),
        proc_(5000, 15, Some(1), Some("web")),
        proc_(5001, 16, None, None),
    ];
    let groups = compute_groups(&ps);
    let got: Vec<(String, Vec<usize>)> =
        groups.into_iter().map(|g| (g.name, g.process_indices)).collect();
    assert_eq!(
        got,
        vec![
            ("api".to_string(), vec![4]),
            ("web".to_string(), vec![0, 5]),
            ("PID group (PPID 7)".to_string(), vec![1, 2]),
            ("Other".to_string(), vec![3, 6]),
        ]
    );
}

#[test]
fn no_processes_no_groups() {
    assert!(compute_groups(&[]).is_empty());
}

#[test]
fn negative_parent_ids_are_named_with_sign() {
    let ps = vec![proc_(1, 1, Some(-3), None), proc_(2, 2, Some(-3), None)];
    let groups = compute_groups(&ps);
    assert_eq!(groups.len(), 1);
    assert_eq!(groups[0].name, "PID group (PPID -3)");
}

#[test]
fn process_info_joins_and_shortens() {
    let long: String = "x".repeat(120);
    let table = vec![
        ProcessRecord { pid: 5, cmd: vec!["node".to_string(), "app.js".to_string()], parent: Some(1) },
        ProcessRecord { pid: 6, cmd: vec![long.clone()], parent: Some(u32::MAX) },
    ];
    assert_eq!(
        get_process_info(&table, 5),
        ("node app.js".to_string(), "node app.js".to_string(), Some(1))
    );
    let (full, short, ppid) = get_process_info(&table, 6);
    assert_eq!(full, long);
    assert_eq!(short, format!("{}...", "x".repeat(97)));
    assert_eq!(ppid, Some(-1));
    assert_eq!(
        get_process_info(&table, 7),
        ("Unknown".to_string(), "Unknown".to_string(), None)
    );
}

#[test]
fn lsof_listing_is_read_after_its_header() {
    let out = "COMMAND   PID USER   FD   TYPE\nnode    4242 me   23u  IPv4\nbad line\nx notanumber y\ncom.docke 77 me\n";
    assert_eq!(
        parse_lsof_listing(out),
        vec![("node".to_string(), 4242), ("com.docke".to_string(), 77)]
    );
    assert!(parse_lsof_listing("").is_empty());
    assert!(parse_lsof_listing("COMMAND PID\n").is_empty());
}

#[test]
fn scan_describes_and_sorts_by_port() {
    let listings = vec![
        PortListing { port: 5432, output: Some("H\npostgres 900 u\n".to_string()) },
        PortListing { port: 3000, output: Some("H\nnode 100 u\nnode 101 u\n".to_string()) },
        PortListing { port: 4200, output: None },
    ];
    let table = vec![ProcessRecord {
        pid: 100,
        cmd: vec!["node".to_string(), "/Users/me/projects/shop/node_modules/.bin/vite".to_string()],
        parent: Some(50),
    }];
    let found = scan_ports(&listings, &table);
    assert_eq!(found.len(), 3);
    assert_eq!(found[0].port, 3000);
    assert_eq!(found[0].pid, 100);
    assert_eq!(found[0].description, "Vite dev server (shop)");
    assert_eq!(found[0].project, Some("shop".to_string()));
    assert_eq!(found[0].ppid, Some(50));
    assert_eq!(found[1].pid, 101);
    assert_eq!(found[1].command_full, "Unknown");
    assert_eq!(found[1].description, "Node.js app");
    assert_eq!(found[2].port, 5432);
    assert_eq!(found[2].description, "PostgreSQL");
}

#[test]
fn sort_by_port_is_stable() {
    let ps = vec![proc_(5, 1, None, None), proc_(3, 2, None, None), proc_(5, 3, None, None), proc_(1, 4, None, None)];
    let pids: Vec<i32> = sort_by_port(ps).iter().map(|p| p.pid).collect();
    assert_eq!(pids, vec![4, 2, 1, 3]);
}

fn sample_app() -> App {
    let ps = vec![
        proc_(3000, 10, Some(1), Some("web")),
        proc_(3001, 11, Some(7), None),
        proc_(3002, 12, Some(7), None),
    ];
    App::new(vec![9000], 2, ps)
}

#[test]
fn new_app_shows_groups_and_selects_first_process() {
    let app = sample_app();
    assert_eq!(
        row_kinds(app.display_rows()),
        vec!["H:web:1", "P:0", "H:PID group (PPID 7):2", "P:1", "P:2"]
    );
    assert_eq!(app.selected(), Some(1));
    assert_eq!(app.selected_process().map(|p| p.pid), Some(10));
    assert!(app.ports().contains(&9000));
    assert!(app.auto_refresh());
    assert_eq!(app.refresh_interval_secs(), 2);
    assert_eq!(app.message(), &None);
}

#[test]
fn zero_refresh_disables_auto_refresh() {
    let app = App::new(vec![], 0, vec![]);
    assert!(!app.auto_refresh());
    assert_eq!(app.refresh_interval_secs(), 2);
    assert_eq!(app.selected(), None);
    assert_eq!(app.header_text(), "\u{1f50d} DevPort - No services detected [Auto-refresh: off]");
    assert_eq!(app.list_title(), " \u{1f4ed} No Processes Found ");
    assert_eq!(app.footer_height(), 3);
}

#[test]
fn next_skips_headers_and_wraps() {
    let mut app = sample_app();
    app.next();
    assert_eq!(app.selected(), Some(3));
    app.next();
    assert_eq!(app.selected(), Some(4));
    app.next();
    assert_eq!(app.selected(), Some(1));
}

#[test]
fn previous_skips_headers_and_wraps() {
    let mut app = sample_app();
    app.previous();
    assert_eq!(app.selected(), Some(4));
    app.previous();
    assert_eq!(app.selected(), Some(3));
    app.previous();
    assert_eq!(app.selected(), Some(1));
}

#[test]
fn previous_undoes_next() {
    let mut app = sample_app();
    for _ in 0..3 {
        let before = app.selected();
        app.next();
        app.previous();
        assert_eq!(app.selected(), before);
        app.next();
    }
}

#[test]
fn next_undoes_previous() {
    let mut app = sample_app();
    for _ in 0..3 {
        let before = app.selected();
        app.previous();
        app.next();
        assert_eq!(app.selected(), before);
        app.previous();
    }
}

#[test]
fn every_process_is_shown_once() {
    let ps = vec![
        proc_(1, 1, Some(9), None),
        proc_(2, 2, Some(9), Some("b")),
        proc_(3, 3, Some(9), None),
        proc_(4, 4, None, Some("a")),
        proc_(5, 5, Some(4), None),
        proc_(6, 6, None, Some("b")),
    ];
    let app = App::new(vec![], 2, ps);
    let mut shown: Vec<usize> = app
        .display_rows()
        .iter()
        .filter_map(|r| match r {
            DisplayRow::Process { process_index } => Some(*process_index),
            _ => None,
        })
        .collect();
    shown.sort();
    assert_eq!(shown, vec![0, 1, 2, 3, 4, 5]);
    assert_eq!(
        row_kinds(app.display_rows()),
        vec!["H:a:1", "P:3", "H:b:2", "P:1", "P:5", "H:PID group (PPID 9):2", "P:0", "P:2", "H:Other:1", "P:4"]
    );
}

#[test]
fn refresh_keeps_or_resets_selection() {
    let mut app = sample_app();
    app.next();
    app.next();
    assert_eq!(app.selected(), Some(4));
    app.refresh(vec![proc_(3000, 10, None, Some("web"))]);
    assert_eq!(app.selected(), Some(1));
    app.refresh(vec![]);
    assert_eq!(app.selected(), None);
}

#[test]
fn refresh_preserving_selection_follows_the_process() {
    let mut app = sample_app();
    app.next();
    app.next();
    assert_eq!(app.selected_process().map(|p| p.pid), Some(12));
    app.refresh_preserving_selection(vec![
        proc_(3002, 12, Some(7), None),
        proc_(3005, 20, None, Some("alpha")),
    ]);
    assert_eq!(app.selected_process().map(|p| p.pid), Some(12));
    assert_eq!(app.selected(), Some(3));
}

#[test]
fn keys() {
    let mut app = sample_app();
    assert!(matches!(app.handle_key(Key::Char('q')), Command::Quit));
    assert!(matches!(app.handle_key(Key::Esc), Command::Quit));
    assert!(matches!(app.handle_key(Key::Char('r')), Command::Refresh));
    assert!(matches!(app.handle_key(Key::Char('j')), Command::Nothing));
    assert_eq!(app.selected(), Some(3));
    assert!(matches!(app.handle_key(Key::Up), Command::Nothing));
    assert_eq!(app.selected(), Some(1));
    assert!(matches!(app.handle_key(Key::Char('d')), Command::Kill(10)));
    assert!(matches!(app.handle_key(Key::Char('a')), Command::Nothing));
    assert!(!app.auto_refresh());
    assert_eq!(app.message(), &Some("Auto-refresh disabled".to_string()));
    app.handle_key(Key::Char('a'));
    assert_eq!(app.message(), &Some("Auto-refresh enabled (2s)".to_string()));
    assert!(matches!(app.handle_key(Key::Other), Command::Nothing));
    app.clear_message();
    assert_eq!(app.message(), &None);
}

#[test]
fn kill_outcomes() {
    let mut app = sample_app();
    app.kill_selected(10, Err("Failed to send SIGTERM".to_string()));
    assert_eq!(app.message(), &Some("Failed to kill PID 10: Failed to send SIGTERM".to_string()));
    assert_eq!(app.processes().len(), 3);
    app.kill_selected(10, Ok(vec![proc_(3001, 11, None, None)]));
    assert_eq!(app.message(), &Some("Killed PID 10 successfully".to_string()));
    assert_eq!(app.processes().len(), 1);
    assert_eq!(app.kill_target(), Some(11));
}

#[test]
fn refresh_requested_says_so() {
    let mut app = sample_app();
    app.refresh_requested(vec![]);
    assert_eq!(app.message(), &Some("Refreshed".to_string()));
    assert_eq!(app.kill_target(), None);
}

#[test]
fn header_and_title() {
    let app = sample_app();
    assert_eq!(app.header_text(), "\u{1f6a2} DevPort - Development Port Manager [Auto-refresh: 2s]");
    assert_eq!(app.list_title(), " \u{1f3af} Active Services (3) ");
    assert_eq!(app.footer_height(), 5);
}

#[test]
fn screen_cells() {
    assert_eq!(port_color(3306), PortColor::Green);
    assert_eq!(port_color(5173), PortColor::Yellow);
    assert_eq!(port_color(27017), PortColor::Magenta);
    assert_eq!(port_color(9229), PortColor::White);
    assert_eq!(group_header_label("web", 2), "\u{2500}\u{2500} web (2) ");
    assert_eq!(port_cell(80), ":80   ");
    assert_eq!(port_cell(27017), ":27017");
    assert_eq!(description_cell("abc"), format!(" {:<35}", "abc"));
    assert_eq!(pid_cell(-5), "PID -5");
    assert_eq!(command_line_label("ls"), "        \u{2192} ls");
    assert_eq!(padded("\u{e9}t\u{e9}", 5), "\u{e9}t\u{e9}  ");
    assert_eq!(fit_command("abcdefghij", 30), "abcdefghij");
    assert_eq!(fit_command("abcdefghijk", 30), "abcdefg...");
    assert_eq!(fit_command("abc", 10), "...");
}

fn footer_texts(app: &App, width: u16) -> Vec<String> {
    app.footer_lines(width)
        .into_iter()
        .map(|l| match l {
            FooterLine::Message(m) => format!("M:{}", m),
            FooterLine::FullCommand(c) => format!("C:{}", c),
            FooterLine::Blank => "B".to_string(),
            FooterLine::Controls => "K".to_string(),
        })
        .collect()
}

#[test]
fn footer_lines_follow_message_then_selection() {
    let mut p = proc_(3000, 10, None, Some("web"));
    p.command_full = "node /srv/web/server.js --port 3000".to_string();
    let mut app = App::new(vec![], 2, vec![p]);
    assert_eq!(footer_texts(&app, 30), vec!["C:node /s...", "B", "K"]);
    assert_eq!(footer_texts(&app, 100), vec!["C:node /srv/web/server.js --port 3000", "B", "K"]);
    app.handle_key(Key::Char('a'));
    assert_eq!(footer_texts(&app, 100), vec!["M:Auto-refresh disabled", "B", "K"]);
    app.clear_message();
    app.refresh(vec![]);
    assert_eq!(footer_texts(&app, 100), vec!["K"]);
}

#[test]
fn scanning_port_by_port_matches_one_scan() {
    let listings = vec![
        PortListing { port: 8080, output: Some("H\njava 7 u\njava 8 u\n".to_string()) },
        PortListing { port: 3000, output: Some("H\nnode 100 u\n".to_string()) },
        PortListing { port: 4200, output: None },
        PortListing { port: 3000, output: Some("H\nnode 102 u\n".to_string()) },
    ];
    let table = vec![ProcessRecord { pid: 7, cmd: vec!["java".to_string(), "-jar".to_string()], parent: Some(1) }];
    let whole = scan_ports(&listings, &table);
    let mut all = Vec::new();
    for l in &listings {
        let one = PortListing { port: l.port, output: l.output.clone() };
        all.extend(scan_ports(&vec![one], &table));
    }
    let joined = sort_by_port(all);
    let key = |v: &Vec<PortProcess>| -> Vec<(u16, i32, String)> {
        v.iter().map(|p| (p.port, p.pid, p.description.clone())).collect()
    };
    assert_eq!(key(&joined), key(&whole));
    let pids: Vec<i32> = whole.iter().map(|p| p.pid).collect();
    assert_eq!(pids, vec![100, 102, 7, 8]);
}

#[test]
fn tick_rescans_only_with_auto_refresh() {
    let mut app = sample_app();
    assert!(matches!(app.handle_tick(), Command::RefreshKeepingSelection));
    app.toggle_auto_refresh();
    assert!(matches!(app.handle_tick(), Command::Nothing));
    let off = App::new(vec![], 0, vec![]);
    assert!(matches!(off.handle_tick(), Command::Nothing));
}
