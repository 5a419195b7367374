use vstd::prelude::*;

verus! {

/// Where the log module writes.
#[derive(Clone, Copy, Debug, PartialEq, Eq, Structural)]
pub enum OutputType {
    Stdout,
}

/// The output of the log module.
#[derive(Clone, Copy, Debug, PartialEq, Eq, Structural)]
pub struct Output {
    pub output_type: OutputType,
}

impl Output {
    /// The output chosen by the `type` option (`stdout` when absent); every type writes to
    /// standard output.
    pub fn new(out_type: Option<String>) -> (r: Self)
        ensures
            r.output_type == OutputType::Stdout,
    {
        let out_type = match out_type {
            Some(t) => t,
            None => String::from_str("stdout"),
        };
        let output_type = if out_type == String::from_str("stdout") {
            OutputType::Stdout
        } else {
            OutputType::Stdout
        };
        Output { output_type }
    }
}

/// The JSON line the log module writes for a message at a level.
pub open spec fn log_line(level: Seq<char>, message: Seq<char>) -> Seq<char> {
    "{\"level\":\""@ + level + "\", \"message\": "@ + message + "}"@
}

/// The level of the log module: the `level` parameter, `info` when absent.
pub fn log_level(level: Option<String>) -> (r: String)
    ensures
        r@ == match level {
            Some(l) => l@,
            None => "info"@,
        },
{
    match level {
        Some(l) => l,
        None => String::from_str("info"),
    }
}

/// The line for `message` at `level`.
pub fn log_message(level: &str, message: &str) -> (r: String)
    ensures
        r@ == log_line(level@, message@),
{
    let mut line = String::from_str("{\"level\":\"");
    line.append(level);
    line.append("\", \"message\": ");
    line.append(message);
    line.append("}");
    line
}

/// The line for one request: its message at the module's level, or the error that kept the
/// message from being built at level `error`.
pub fn log_entry(level: &str, message: Result<String, String>) -> (r: String)
    ensures
        r@ == match message {
            Ok(m) => log_line(level@, m@),
            Err(e) => log_line("error"@, e@),
        },
{
    match message {
        Ok(m) => log_message(level, m.as_str()),
        Err(e) => log_message("error", e.as_str()),
    }
}

} // verus!
