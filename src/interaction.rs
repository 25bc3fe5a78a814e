use vstd::prelude::*;

verus! {

/// Where the left button is in a drag gesture.
#[derive(Clone, Copy, Debug, PartialEq, Eq, Structural)]
pub enum ButtonState {
    /// No drag in progress.
    Released,
    /// The button went down; the drag anchor is not known yet.
    JustPressed,
    /// Dragging: the anchor is recorded and the pointer moves the preview.
    Pressed,
}

/// An input event, decoded by the windowing layer.
#[derive(Clone, Copy, Debug, PartialEq, Eq, Structural)]
pub enum InputEvent {
    LeftPressed,
    LeftReleased,
    CursorMoved,
    ScrollIn,
    ScrollOut,
    CloseRequested,
}

/// What the caller does in answer to an event.
#[derive(Clone, Copy, Debug, PartialEq, Eq, Structural)]
pub enum Command {
    /// Nothing to do.
    Ignore,
    /// Record the pointer position as the drag anchor, with a zero delta.
    AnchorDrag,
    /// Set the live delta from the pointer and redraw the preview viewport
    /// (base viewport translated by the delta) at low resolution.
    PreviewPan,
    /// Translate the base viewport by the live delta and redraw in full.
    CommitPan,
    /// Shrink the viewport around its center and redraw in full.
    ZoomIn,
    /// Grow the viewport around its center and redraw in full.
    ZoomOut,
    /// Stop the event loop.
    Exit,
}

/// How a frame is rendered.
#[derive(Clone, Copy, Debug, PartialEq, Eq, Structural)]
pub enum Quality {
    Full,
    LowRes,
}

/// The drag state machine: next state and command for each state and event.
pub open spec fn transition(state: ButtonState, event: InputEvent) -> (ButtonState, Command) {
    match event {
        InputEvent::LeftPressed => (ButtonState::JustPressed, Command::Ignore),
        InputEvent::LeftReleased => (
            ButtonState::Released,
            if state == ButtonState::Pressed {
                Command::CommitPan
            } else {
                Command::Ignore
            },
        ),
        InputEvent::CursorMoved => match state {
            ButtonState::Released => (ButtonState::Released, Command::Ignore),
            ButtonState::JustPressed => (ButtonState::Pressed, Command::AnchorDrag),
            ButtonState::Pressed => (ButtonState::Pressed, Command::PreviewPan),
        },
        InputEvent::ScrollIn => (state, Command::ZoomIn),
        InputEvent::ScrollOut => (state, Command::ZoomOut),
        InputEvent::CloseRequested => (state, Command::Exit),
    }
}

/// Advances the drag state machine by one event.
pub fn step(state: ButtonState, event: InputEvent) -> (r: (ButtonState, Command))
    ensures
        r == transition(state, event),
        r.1 == Command::CommitPan <==> (state == ButtonState::Pressed && event
            == InputEvent::LeftReleased),
        r.1 == Command::PreviewPan ==> r.0 == ButtonState::Pressed,
{
    match event {
        InputEvent::LeftPressed => (ButtonState::JustPressed, Command::Ignore),
        InputEvent::LeftReleased => {
            let cmd = match state {
                ButtonState::Pressed => Command::CommitPan,
                _ => Command::Ignore,
            };
            (ButtonState::Released, cmd)
        },
        InputEvent::CursorMoved => match state {
            ButtonState::Released => (ButtonState::Released, Command::Ignore),
            ButtonState::JustPressed => (ButtonState::Pressed, Command::AnchorDrag),
            ButtonState::Pressed => (ButtonState::Pressed, Command::PreviewPan),
        },
        InputEvent::ScrollIn => (state, Command::ZoomIn),
        InputEvent::ScrollOut => (state, Command::ZoomOut),
        InputEvent::CloseRequested => (state, Command::Exit),
    }
}

/// Whether a command asks for a new frame.
pub fn needs_redraw(cmd: Command) -> (r: bool)
    ensures
        r <==> (cmd == Command::PreviewPan || cmd == Command::CommitPan || cmd == Command::ZoomIn
            || cmd == Command::ZoomOut),
{
    match cmd {
        Command::PreviewPan | Command::CommitPan | Command::ZoomIn | Command::ZoomOut => true,
        _ => false,
    }
}

/// Quality of the next frame: reduced while a drag is in progress, full
/// otherwise.
pub fn redraw_quality(state: ButtonState) -> (q: Quality)
    ensures
        q == Quality::LowRes <==> state == ButtonState::Pressed,
{
    match state {
        ButtonState::Pressed => Quality::LowRes,
        _ => Quality::Full,
    }
}

} // verus!
