use vstd::prelude::*;
use vstd::string::StringExecFns;
use crate::parser::{ParsedLine, ParsedView};

verus! {

/// 一条日志的解析结果。行号由 session 赋值,不在此结构里。
#[derive(Debug, Clone, Default, PartialEq, Eq)]
pub struct LogEntry {
    pub date: String,
    pub time: String,
    pub level: String,
    pub pid: String,
    pub tid: String,
    pub tag: String,
    pub message: String,
}

impl View for LogEntry {
    type V = ParsedView;

    open spec fn view(&self) -> ParsedView {
        ParsedView {
            date: self.date@,
            time: self.time@,
            level: self.level@,
            pid: self.pid@,
            tid: self.tid@,
            tag: self.tag@,
            message: self.message@,
        }
    }
}

impl LogEntry {
    /// 借用视图:零拷贝地把 owned 字段转成 `ParsedLine`。
    pub fn as_parsed(&self) -> (r: ParsedLine<'_>)
        ensures
            r@ == self@,
    {
        ParsedLine {
            date: self.date.as_str(),
            time: self.time.as_str(),
            level: self.level.as_str(),
            pid: self.pid.as_str(),
            tid: self.tid.as_str(),
            tag: self.tag.as_str(),
            message: self.message.as_str(),
        }
    }

    /// The owned copy of a borrowed parse result.
    pub fn from_parsed(parsed: ParsedLine<'_>) -> (r: LogEntry)
        ensures
            r@ == parsed@,
    {
        LogEntry {
            date: String::from_str(parsed.date),
            time: String::from_str(parsed.time),
            level: String::from_str(parsed.level),
            pid: String::from_str(parsed.pid),
            tid: String::from_str(parsed.tid),
            tag: String::from_str(parsed.tag),
            message: String::from_str(parsed.message),
        }
    }
}

} // verus!
