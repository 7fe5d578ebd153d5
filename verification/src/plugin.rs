//! The plugin API: the traits a plugin implements, the events it observes,
//! the hook outcomes it returns, and the payloads hooks carry.
//!
//! Every hook has a no-op default (continue / do nothing), so a plugin
//! overrides only what it cares about; all traits are object-safe and are
//! used as `dyn` values by the host.
use vstd::prelude::*;
use vstd::string::StringExecFns;

verus! {

/// Static metadata a plugin reports about itself.
#[derive(Debug, Clone)]
pub struct PluginMetadata {
    /// Stable plugin identifier (e.g. `com.example.pomodoro`).
    pub id: String,
    /// Human-readable name.
    pub name: String,
    /// Plugin version string.
    pub version: String,
    /// Author display name.
    pub author: String,
}

/// A capture submitted by the user (quick-capture text).
#[derive(Debug, Clone)]
pub struct CaptureEntry {
    /// The raw captured text.
    pub raw_text: String,
}

/// An agenda query as the user typed it.
#[derive(Debug, Clone)]
pub struct AgendaQuery {
    /// The raw filter text.
    pub raw_filter: String,
}

/// One agenda row handed to plugins after a query.
#[derive(Debug, Clone)]
pub struct AgendaItem {
    /// Identity of the headline the row shows.
    pub headline_id: String,
    /// Text the row displays.
    pub display_text: String,
}

/// Host events a plugin can observe.
#[non_exhaustive]
#[derive(Debug, Clone)]
pub enum Event {
    /// A file was opened in the editor.
    FileOpened {
        /// The file's path.
        path: String,
    },
    /// A file was saved.
    FileSaved {
        /// The file's path.
        path: String,
    },
    /// A file changed on disk.
    FileChanged {
        /// The file's path.
        path: String,
    },
    /// A headline was edited.
    HeadlineEdited {
        /// The file holding the headline.
        file: String,
        /// The headline's identity.
        headline_id: String,
    },
    /// A clock was started on a headline.
    ClockStarted {
        /// The file holding the headline.
        file: String,
        /// The headline's identity.
        headline_id: String,
    },
    /// A running clock was stopped.
    ClockStopped {
        /// The file holding the headline.
        file: String,
        /// The headline's identity.
        headline_id: String,
    },
    /// A capture was submitted.
    CaptureSubmitted {
        /// The submitted capture.
        entry: CaptureEntry,
    },
    /// An agenda query ran.
    AgendaQueried {
        /// The query that ran.
        query: AgendaQuery,
    },
    /// The index was rebuilt.
    IndexRebuilt,
}

/// What a "before" hook decides about the operation it intercepts.
#[non_exhaustive]
#[derive(Debug, Clone)]
pub enum HookOutcome<T> {
    /// Let the operation proceed unchanged.
    Continue,
    /// Proceed with this replacement value.
    Replace(T),
    /// Cancel the operation, with a reason for the user.
    Cancel(String),
}

/// Errors a plugin (or the host on its behalf) reports.
#[non_exhaustive]
#[derive(Debug)]
pub enum PluginError {
    /// The plugin failed to initialize.
    Init {
        /// Why.
        reason: String,
    },
    /// The plugin failed while running.
    Runtime {
        /// Why.
        reason: String,
    },
    /// A host capability the plugin asked for is unavailable.
    HostUnavailable {
        /// The capability.
        capability: String,
    },
    /// The host handed the plugin invalid input.
    InvalidInput {
        /// Why.
        reason: String,
    },
}

/// The user-facing message of a plugin error.
pub open spec fn error_message(e: PluginError) -> Seq<char> {
    match e {
        PluginError::Init { reason } => "plugin init failed: "@ + reason@,
        PluginError::Runtime { reason } => "plugin runtime error: "@ + reason@,
        PluginError::HostUnavailable { capability } => "host capability unavailable: "@ + capability@,
        PluginError::InvalidInput { reason } => "invalid input from host: "@ + reason@,
    }
}

impl PluginError {
    /// The error's display text, e.g. `plugin runtime error: boom`.
    pub fn message(&self) -> (r: String)
        ensures
            r@ == error_message(*self),
    {
        let (prefix, detail) = match self {
            PluginError::Init { reason } => ("plugin init failed: ", reason),
            PluginError::Runtime { reason } => ("plugin runtime error: ", reason),
            PluginError::HostUnavailable { capability } => ("host capability unavailable: ", capability),
            PluginError::InvalidInput { reason } => ("invalid input from host: ", reason),
        };
        let mut out = String::from_str(prefix);
        out.append(detail.as_str());
        out
    }
}

/// What a plugin sees of the host while it initializes.
pub trait PluginContext: Send + Sync {
    /// The metadata the host holds for this plugin.
    fn plugin_metadata(&self) -> &PluginMetadata;
}

/// Host capabilities available to hooks.
pub trait HookContext: Send + Sync {
    /// Read a vault file's text.
    fn read_vault_file(&self, path: &str) -> Result<String, PluginError>;

    /// Run an index query and return its serialized result.
    fn query_index(&self, query: &str) -> Result<String, PluginError>;

    /// Emit a host event.
    fn emit_event(&self, event: Event) -> Result<(), PluginError>;
}

/// An Orgsidian plugin. Only `metadata`, `init` and `shutdown` are required;
/// every hook defaults to a no-op that lets the operation continue.
pub trait OrgsidianPlugin: Send + Sync {
    /// The plugin's metadata.
    fn metadata(&self) -> PluginMetadata;

    /// Initialize against the host.
    fn init(&mut self, ctx: &dyn PluginContext) -> Result<(), PluginError>;

    /// Release resources before unloading.
    fn shutdown(&mut self) -> Result<(), PluginError>;

    /// Hook ordering priority (lower runs first); `0` by default.
    fn priority(&self) -> (r: i32)
        default_ensures
            r == 0,
    {
        0
    }

    /// Observe a host event; does nothing by default.
    fn on_event(&mut self, event: &Event) -> (r: Result<(), PluginError>)
        default_ensures
            r is Ok,
    {
        Ok(())
    }

    /// Intercept a save; continues unchanged by default.
    fn on_save_before(&mut self, ctx: &dyn HookContext, content: &str) -> (r: Result<HookOutcome<String>, PluginError>)
        default_ensures
            r matches Ok(HookOutcome::Continue),
    {
        Ok(HookOutcome::Continue)
    }

    /// Intercept a capture; continues unchanged by default.
    fn on_capture_before(&mut self, ctx: &dyn HookContext, entry: &CaptureEntry) -> (r: Result<HookOutcome<CaptureEntry>, PluginError>)
        default_ensures
            r matches Ok(HookOutcome::Continue),
    {
        Ok(HookOutcome::Continue)
    }

    /// Post-process agenda results; leaves them unchanged by default.
    fn on_agenda_query_after(
        &mut self,
        ctx: &dyn HookContext,
        query: &AgendaQuery,
        results: &mut Vec<AgendaItem>,
    ) -> (r: Result<(), PluginError>)
        default_ensures
            r is Ok,
            final(results)@ == old(results)@,
    {
        Ok(())
    }
}

} // verus!
