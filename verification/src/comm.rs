use crate::action::ID;
use vstd::prelude::*;

verus! {

/// Number that tells user-interface events apart.
pub type Code = u16;

/// A single-precision number, held as its IEEE 754 bit pattern.
pub type Bits = u32;

/// A value that travels with a message.
#[derive(Debug)]
pub enum Value {
    Null,
    Bool(bool),
    Integer(i32),
    Float(Bits),
    Char(char),
    String(String),
}

pub enum ValueView {
    Null,
    Bool(bool),
    Integer(i32),
    Float(Bits),
    Char(char),
    String(Seq<char>),
}

impl View for Value {
    type V = ValueView;

    open spec fn view(&self) -> ValueView {
        match self {
            Value::Null => ValueView::Null,
            Value::Bool(b) => ValueView::Bool(*b),
            Value::Integer(i) => ValueView::Integer(*i),
            Value::Float(f) => ValueView::Float(*f),
            Value::Char(c) => ValueView::Char(*c),
            Value::String(s) => ValueView::String(s@),
        }
    }
}

#[derive(Debug, Clone, Copy, PartialEq, Eq, Structural)]
pub enum LogMode {
    Event,
    Behavior,
}

/// What the parts of a running task tell each other.
#[derive(Debug)]
pub enum Message {
    Code(ID, ID, Code),
    Value(ID, ID, Code, Value),
    UIEvent(Code, Value),
    /// A key went down; the text names the key.
    KeyPress(String),
    Log(LogMode, String),
    SetComms,
    Interrupt,
    Query(ID, String),
    QueryResponse(ID, String),
    ActionComplete(ID),
    /// The job of an action broke down; the action is over all the same.
    ActionFailed(ID),
    BlockComplete,
    Wrap,
    Null,
}

pub enum MessageView {
    Code(Seq<char>, Seq<char>, Code),
    Value(Seq<char>, Seq<char>, Code, ValueView),
    UIEvent(Code, ValueView),
    KeyPress(Seq<char>),
    Log(LogMode, Seq<char>),
    SetComms,
    Interrupt,
    Query(Seq<char>, Seq<char>),
    QueryResponse(Seq<char>, Seq<char>),
    ActionComplete(Seq<char>),
    ActionFailed(Seq<char>),
    BlockComplete,
    Wrap,
    Null,
}

impl View for Message {
    type V = MessageView;

    open spec fn view(&self) -> MessageView {
        match self {
            Message::Code(a, b, c) => MessageView::Code(a@, b@, *c),
            Message::Value(a, b, c, v) => MessageView::Value(a@, b@, *c, v@),
            Message::UIEvent(c, v) => MessageView::UIEvent(*c, v@),
            Message::KeyPress(k) => MessageView::KeyPress(k@),
            Message::Log(m, s) => MessageView::Log(*m, s@),
            Message::SetComms => MessageView::SetComms,
            Message::Interrupt => MessageView::Interrupt,
            Message::Query(a, k) => MessageView::Query(a@, k@),
            Message::QueryResponse(a, k) => MessageView::QueryResponse(a@, k@),
            Message::ActionComplete(a) => MessageView::ActionComplete(a@),
            Message::ActionFailed(a) => MessageView::ActionFailed(a@),
            Message::BlockComplete => MessageView::BlockComplete,
            Message::Wrap => MessageView::Wrap,
            Message::Null => MessageView::Null,
        }
    }
}

impl Clone for Value {
    fn clone(&self) -> (r: Value)
        ensures
            r@ == self@,
    {
        match self {
            Value::Null => Value::Null,
            Value::Bool(b) => Value::Bool(*b),
            Value::Integer(i) => Value::Integer(*i),
            Value::Float(f) => Value::Float(*f),
            Value::Char(c) => Value::Char(*c),
            Value::String(s) => Value::String(s.clone()),
        }
    }
}

impl Clone for Message {
    fn clone(&self) -> (r: Message)
        ensures
            r@ == self@,
    {
        match self {
            Message::Code(a, b, c) => Message::Code(a.clone(), b.clone(), *c),
            Message::Value(a, b, c, v) => Message::Value(a.clone(), b.clone(), *c, v.clone()),
            Message::UIEvent(c, v) => Message::UIEvent(*c, v.clone()),
            Message::KeyPress(k) => Message::KeyPress(k.clone()),
            Message::Log(m, s) => Message::Log(*m, s.clone()),
            Message::SetComms => Message::SetComms,
            Message::Interrupt => Message::Interrupt,
            Message::Query(a, k) => Message::Query(a.clone(), k.clone()),
            Message::QueryResponse(a, k) => Message::QueryResponse(a.clone(), k.clone()),
            Message::ActionComplete(a) => Message::ActionComplete(a.clone()),
            Message::ActionFailed(a) => Message::ActionFailed(a.clone()),
            Message::BlockComplete => Message::BlockComplete,
            Message::Wrap => Message::Wrap,
            Message::Null => Message::Null,
        }
    }
}

} // verus!
