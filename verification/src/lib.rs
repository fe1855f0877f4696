//! Widget state for viewing ANSI-coloured logs and binary data in a terminal:
//! the hex viewer's cursor, editing and markers, the log viewer's retention,
//! wrapped-row geometry and search, and the text rules they share, with their
//! contracts verified.

pub mod cells;
pub mod dump;
pub mod hex;
pub mod highlight;
pub mod laws;
pub mod log;
pub mod text;

pub use cells::{columns_for, ByteStyle, CellKind, HexCell};
pub use dump::{ascii_view, hex_dump};
pub use highlight::{line_text, line_text_from, AnsiSpan, LineText, Piece};
pub use hex::{HexLine, HexViewEvent, HexViewState, KeyCode, KeyInput, Marker, NibbleEdit, ViewMode};
pub use log::{
    strip_control_only, wrapped_row_count, LineHighlight, LogMatch, LogViewState, LogWindow, Overlay,
};
pub use text::{ansi_visible_len, display_width, display_width_char, strip_ansi_codes};
