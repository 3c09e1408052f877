//! Window configuration.

use crate::error::AggregatorError;
use vstd::prelude::*;

verus! {

/// The aggregates that a reduction stage can be asked for.
#[derive(Debug, Clone, Copy, PartialEq, Eq, Hash, Structural)]
pub enum AggregationType {
    Count,
    Sum,
    Mean,
    Min,
    Max,
    First,
    Last,
    Variance,
    StdDev,
    Median,
    /// A percentile, 0 to 100.
    Percentile(u8),
    Range,
    Rate,
}

/// How time is cut into windows.
#[derive(Debug, Clone, Copy, PartialEq, Eq, Structural)]
pub enum WindowType {
    /// Fixed size, no overlap.
    Tumbling,
    /// Fixed size, advancing by a slide step.
    Sliding,
    /// Bounded by gaps in activity.
    Session,
}

/// The shape of the windows and how many of them are kept.
#[derive(Debug, Clone, Copy, PartialEq, Eq, Structural)]
pub struct WindowConfig {
    pub window_type: WindowType,
    pub window_size_ms: i64,
    pub slide_size_ms: Option<i64>,
    pub session_gap_ms: Option<i64>,
    pub max_window_count: usize,
}

impl WindowConfig {
    /// The step by which window starts are spaced: the size for tumbling
    /// windows; for sliding windows the slide, or the size where no slide
    /// is given. Session windows have no step.
    pub open spec fn step(self) -> int {
        match self.window_type {
            WindowType::Tumbling => self.window_size_ms as int,
            WindowType::Sliding => match self.slide_size_ms {
                Some(s) => s as int,
                None => self.window_size_ms as int,
            },
            WindowType::Session => 0,
        }
    }

    /// The rules of a configuration: tumbling and sliding windows have a
    /// positive size, sliding windows a positive step, session windows a
    /// positive gap; at least one window is kept.
    pub open spec fn is_valid(self) -> bool {
        &&& self.max_window_count > 0
        &&& match self.window_type {
            WindowType::Tumbling => self.window_size_ms > 0,
            WindowType::Sliding => self.window_size_ms > 0 && self.step() > 0,
            WindowType::Session => match self.session_gap_ms {
                Some(g) => g > 0,
                None => false,
            },
        }
    }

    /// Tumbling windows of the given size; up to 1000 are kept.
    pub fn tumbling(window_size_ms: i64) -> (r: Self)
        ensures
            r == (WindowConfig {
                window_type: WindowType::Tumbling,
                window_size_ms,
                slide_size_ms: None,
                session_gap_ms: None,
                max_window_count: 1000,
            }),
    {
        WindowConfig {
            window_type: WindowType::Tumbling,
            window_size_ms,
            slide_size_ms: None,
            session_gap_ms: None,
            max_window_count: 1000,
        }
    }

    /// Sliding windows of the given size and slide; up to 1000 are kept.
    pub fn sliding(window_size_ms: i64, slide_size_ms: i64) -> (r: Self)
        ensures
            r == (WindowConfig {
                window_type: WindowType::Sliding,
                window_size_ms,
                slide_size_ms: Some(slide_size_ms),
                session_gap_ms: None,
                max_window_count: 1000,
            }),
    {
        WindowConfig {
            window_type: WindowType::Sliding,
            window_size_ms,
            slide_size_ms: Some(slide_size_ms),
            session_gap_ms: None,
            max_window_count: 1000,
        }
    }

    /// Session windows closed by the given gap; up to 1000 are kept.
    pub fn session(session_gap_ms: i64) -> (r: Self)
        ensures
            r == (WindowConfig {
                window_type: WindowType::Session,
                window_size_ms: 0,
                slide_size_ms: None,
                session_gap_ms: Some(session_gap_ms),
                max_window_count: 1000,
            }),
    {
        WindowConfig {
            window_type: WindowType::Session,
            window_size_ms: 0,
            slide_size_ms: None,
            session_gap_ms: Some(session_gap_ms),
            max_window_count: 1000,
        }
    }

    /// Whether the configuration keeps its rules.
    pub fn check(&self) -> (r: bool)
        ensures
            r == self.is_valid(),
    {
        if self.max_window_count == 0 {
            return false;
        }
        match self.window_type {
            WindowType::Tumbling => self.window_size_ms > 0,
            WindowType::Sliding => {
                let step: i64 = match self.slide_size_ms {
                    Some(s) => s,
                    None => self.window_size_ms,
                };
                self.window_size_ms > 0 && step > 0
            },
            WindowType::Session => match self.session_gap_ms {
                Some(g) => g > 0,
                None => false,
            },
        }
    }

    /// `Ok` for a configuration that keeps its rules, `InvalidWindowConfig`
    /// for every other.
    pub fn validate(&self) -> (r: Result<(), AggregatorError>)
        ensures
            r is Ok <==> self.is_valid(),
            r is Err ==> r->Err_0 is InvalidWindowConfig,
    {
        if self.check() {
            Ok(())
        } else {
            Err(AggregatorError::InvalidWindowConfig("window sizes must be positive".to_owned()))
        }
    }
}

} // verus!
