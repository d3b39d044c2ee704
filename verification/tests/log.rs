use gourd::log::Ctx;
use gourd::log::LogLevel;
use gourd::log::LogTokens;

#[test]
fn level_tokens_name_the_level() {
    assert_eq!(LogTokens.level_token(LogLevel::Error), "error");
    assert_eq!(LogTokens.level_token(LogLevel::Warn), "warn");
    assert_eq!(LogTokens.level_token(LogLevel::Info), "info");
    assert_eq!(LogTokens.level_token(LogLevel::Debug), "debug");
    assert_eq!(LogTokens.level_token(LogLevel::Trace), "trace");
}

#[test]
fn levels_are_coloured() {
    assert_eq!(LogTokens.level_color(LogLevel::Error, "boom"), "\u{1b}[31mboom\u{1b}[0m");
    assert_eq!(LogTokens.level_color(LogLevel::Warn, "w"), "\u{1b}[33mw\u{1b}[0m");
    assert_eq!(LogTokens.level_color(LogLevel::Debug, ""), "\u{1b}[34m\u{1b}[0m");
    assert_eq!(LogTokens.level_color(LogLevel::Trace, "t"), "\u{1b}[35mt\u{1b}[0m");
    assert_eq!(LogTokens.prefix_token(LogLevel::Info), "\u{1b}[32minfo\u{1b}[0m:");
}

#[test]
fn contexts_show_cause_and_help() {
    let c = Ctx("no file".to_string(), "create it".to_string());
    assert_eq!(
        c.render(),
        "\u{1b}[1m\u{1b}[5m\u{1b}[31mcaused by:\u{1b}[0m no file\n\n\u{1b}[1m\u{1b}[4m\u{1b}[32mhelp:\u{1b}[0m create it\n"
    );
    let bare = Ctx("no file".to_string(), String::new());
    assert_eq!(bare.render(), "\u{1b}[1m\u{1b}[5m\u{1b}[31mcaused by:\u{1b}[0m no file\n");
}
