use ec4x_core::config::{parse_args, Command, Step};
use ec4x_core::frontier::OpenSet;
use ec4x_core::{Config, ConfigError};

fn settings(num_empires: u32) -> Config {
    Config {
        host_name: String::from("host"),
        game_name: String::from("game"),
        server_ip: String::from("127.0.0.1"),
        port: String::from("4000"),
        num_empires,
    }
}

#[test]
fn settings_need_two_empires() {
    assert_eq!(settings(0).validate(), Err(ConfigError::TooFewEmpires { found: 0 }));
    assert_eq!(settings(1).validate(), Err(ConfigError::TooFewEmpires { found: 1 }));
    assert_eq!(settings(2).validate(), Ok(()));
    assert_eq!(settings(12).validate(), Ok(()));
}

#[test]
fn only_new_starts_a_game() {
    assert_eq!(parse_args(Command::New), Step::CreateGame);
    assert_eq!(parse_args(Command::Start), Step::Nothing);
    assert_eq!(parse_args(Command::Maint), Step::Nothing);
    assert_eq!(parse_args(Command::Stats), Step::Nothing);
}

#[test]
fn open_set_hands_out_least_score_then_least_id() {
    let mut open = OpenSet::new();
    assert_eq!(open.pop_least(), None);
    open.push(5, 9);
    open.push(3, 7);
    open.push(5, 2);
    open.push(3, 1);
    open.push(4, 0);
    assert_eq!(open.len(), 5);
    assert_eq!(open.pop_least(), Some((3, 1)));
    assert_eq!(open.pop_least(), Some((3, 7)));
    assert_eq!(open.pop_least(), Some((4, 0)));
    assert_eq!(open.pop_least(), Some((5, 2)));
    assert_eq!(open.pop_least(), Some((5, 9)));
    assert_eq!(open.pop_least(), None);
    assert_eq!(open.len(), 0);
}
