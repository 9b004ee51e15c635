//! Egaku: pure-logic widget state machines (text editing, lists, tabs,
//! focus, diffs, tables), verified with Verus.

pub mod chigai;
pub mod color;
pub mod diff;
pub mod diff_text;
pub mod focus;
pub mod input;
pub mod keymap;
pub mod list;
pub mod modal;
pub mod picker;
pub mod secret;
pub mod selectable;
pub mod shortest;
pub mod sorting;
pub mod split;
pub mod strings;
pub mod table;
pub mod tabs;
pub mod textarea;
pub mod textview;

pub use chigai::{Change, Diff, DiffOptions};
pub use diff::{DiffLine, DiffMode, DiffView, FileDiff, Hunk, LineKind, Row};
pub use focus::FocusManager;
pub use input::TextInput;
pub use keymap::{KeyCombo, KeyMap};
pub use list::ListView;
pub use modal::Modal;
pub use picker::{PickerEffect, PickerEvent, PickerState, PickerStep};
pub use secret::SecretInput;
pub use selectable::Selectable;
pub use split::Orientation;
pub use table::{Column, IDENTITY_FIELD, SortKey, SortOrder, TableError, TableRow, TableView};
pub use tabs::TabBar;
pub use textarea::TextArea;
pub use textview::{Span, TextView, WrappedLine};
