use sqew::cli::{parse_payload_file, Cli, Commands, MessageCommands, QueueCommands};
use sqew::errors::{retry_backoff, ErrorKind, MAX_TRANSIENT_RETRIES};
use sqew::models::Config;
use sqew::server::status_code;
use sqew::store::bootstrap_plan;

#[test]
fn payload_file_as_json_array() {
    let items = parse_payload_file("[ {\"a\": 1}, 2, \"x\" ]").unwrap();
    assert_eq!(items, vec!["{\"a\":1}", "2", "\"x\""]);
}

#[test]
fn payload_file_as_ndjson() {
    let content = "{\"a\": 1}\n\n   \n 2 \n\"x\"";
    let items = parse_payload_file(content).unwrap();
    assert_eq!(items, vec!["{\"a\":1}", "2", "\"x\""]);
}

#[test]
fn payload_file_reports_first_bad_line() {
    let content = "{\"a\":1}\nnot json\n2";
    assert_eq!(parse_payload_file(content).unwrap_err(), 2);
}

#[test]
fn empty_payload_file_holds_nothing() {
    assert_eq!(parse_payload_file("").unwrap(), Vec::<String>::new());
    assert_eq!(parse_payload_file("[]").unwrap(), Vec::<String>::new());
}

#[test]
fn status_codes_follow_the_table() {
    assert_eq!(status_code(ErrorKind::NotFound), 404);
    assert_eq!(status_code(ErrorKind::AlreadyExists), 409);
    assert_eq!(status_code(ErrorKind::Invalid), 400);
    assert_eq!(status_code(ErrorKind::Conflict), 409);
    assert_eq!(status_code(ErrorKind::Transient), 503);
    assert_eq!(status_code(ErrorKind::Fatal), 500);
}

#[test]
fn transient_retries_back_off_then_give_up() {
    assert_eq!(retry_backoff(0), Some(5));
    assert_eq!(retry_backoff(1), Some(10));
    assert_eq!(retry_backoff(2), Some(20));
    assert_eq!(retry_backoff(3), Some(40));
    assert_eq!(retry_backoff(4), Some(50));
    assert_eq!(retry_backoff(MAX_TRANSIENT_RETRIES - 1), Some(50));
    assert_eq!(retry_backoff(MAX_TRANSIENT_RETRIES), None);
    assert_eq!(retry_backoff(u32::MAX), None);
}

#[test]
fn default_config_points_at_local_file() {
    let cfg = Config::default();
    assert_eq!(cfg.db_path, "sqew.db");
    assert!(!cfg.force_recreate);
}

#[test]
fn bootstrap_plan_decides_steps() {
    let plan = bootstrap_plan(false, false);
    assert!(!plan.delete_existing && plan.create_file && plan.apply_schema);
    let plan = bootstrap_plan(true, false);
    assert!(!plan.delete_existing && !plan.create_file && !plan.apply_schema);
    let plan = bootstrap_plan(true, true);
    assert!(plan.delete_existing && plan.create_file && plan.apply_schema);
    let plan = bootstrap_plan(false, true);
    assert!(!plan.delete_existing && plan.create_file && plan.apply_schema);
}

#[test]
fn command_values_carry_their_arguments() {
    let cli = Cli {
        command: Commands::Queue(QueueCommands::Add { name: "jobs".to_string(), max_attempts: 5 }),
    };
    match cli.command {
        Commands::Queue(QueueCommands::Add { name, max_attempts }) => {
            assert_eq!(name, "jobs");
            assert_eq!(max_attempts, 5);
        }
        _ => panic!("wrong command"),
    }
    let enq = MessageCommands::Enqueue {
        queue: "jobs".to_string(),
        payload: Some("{}".to_string()),
        file: None,
        delay_ms: 0,
    };
    match enq {
        MessageCommands::Enqueue { queue, payload, file, delay_ms } => {
            assert_eq!(queue, "jobs");
            assert_eq!(payload.as_deref(), Some("{}"));
            assert!(file.is_none());
            assert_eq!(delay_ms, 0);
        }
        _ => panic!("wrong command"),
    }
}
