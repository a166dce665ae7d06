//! View and visualization state.

use vstd::prelude::*;

verus! {

/// Plot mode.
#[derive(Clone, Copy, Debug, PartialEq, Eq, Structural)]
pub enum PlotMode {
    Scatter,
    Histogram,
    BoxPlot,
    Pareto,
    XbarR,
    PChart,
}

impl Default for PlotMode {
    fn default() -> (r: Self)
        ensures
            r == PlotMode::Scatter,
    {
        PlotMode::Scatter
    }
}

/// Line rendering style.
#[derive(Clone, Copy, Debug, PartialEq, Eq, Structural)]
pub enum LineStyle {
    Line,
    Points,
    LineAndPoints,
}

impl Default for LineStyle {
    fn default() -> (r: Self)
        ensures
            r == LineStyle::Line,
    {
        LineStyle::Line
    }
}

/// Layout mode for responsive design.
#[derive(Clone, Copy, Debug, PartialEq, Eq, Structural)]
pub enum LayoutMode {
    /// Small screens (below 800 pixels): stack panels vertically.
    Compact,
    /// Medium screens (800 to 1200 pixels): hide the data table by default.
    Normal,
    /// Large screens (above 1200 pixels): show all panels.
    Wide,
}

/// View state: column selection, display options, plot interaction and
/// styling. Bounds-free display state; the numeric thresholds live in the
/// filter and SPC configurations.
#[derive(Clone, Debug)]
pub struct ViewState {
    /// Current X axis column index.
    pub x_index: usize,
    /// Use the row number as X axis instead of column data.
    pub use_row_index: bool,
    /// Selected Y series column indices.
    pub y_indices: Vec<usize>,
    /// Dark mode theme toggle.
    pub dark_mode: bool,
    /// Show the help panel.
    pub show_help: bool,
    /// Grid visibility.
    pub show_grid: bool,
    /// Legend visibility.
    pub show_legend: bool,
    /// Data table panel visibility.
    pub show_data_table: bool,
    /// Statistics panel visibility.
    pub show_stats_panel: bool,
    /// Series panel visibility.
    pub show_series_panel: bool,
    /// Enable zoom.
    pub allow_zoom: bool,
    /// Enable pan/drag.
    pub allow_drag: bool,
    /// Reset zoom bounds on the next frame.
    pub reset_bounds: bool,
    /// Current plot mode.
    pub plot_mode: PlotMode,
    /// Line rendering style.
    pub line_style: LineStyle,
    /// The X axis holds timestamp data.
    pub x_is_timestamp: bool,
    /// Show the histogram overlay.
    pub show_histogram: bool,
    /// Number of histogram bins.
    pub histogram_bins: usize,
    /// Show the box plot overlay.
    pub show_boxplot: bool,
    /// Point count threshold before reduction.
    pub downsample_threshold: usize,
    /// Currently hovered point `(series, point)`.
    pub hovered_point: Option<(usize, usize)>,
    /// Currently selected point `(series, point)`.
    pub selected_point: Option<(usize, usize)>,
    /// Row hovered in the data table.
    pub table_hovered_row: Option<usize>,
    /// Last clicked series index.
    pub last_selected_series: Option<usize>,
}

impl ViewState {
    pub fn new() -> (r: Self)
        ensures
            r.x_index == 0,
            r.y_indices@.len() == 0,
            r.dark_mode,
            r.show_grid,
            r.show_legend,
            !r.reset_bounds,
            r.plot_mode == PlotMode::Scatter,
            r.line_style == LineStyle::Line,
            r.histogram_bins == crate::constants::DEFAULT_HISTOGRAM_BINS,
            r.downsample_threshold == crate::constants::DOWNSAMPLE_THRESHOLD,
            r.hovered_point is None,
            r.selected_point is None,
            r.table_hovered_row is None,
            r.last_selected_series is None,
            !r.use_row_index && !r.show_help && !r.show_data_table && !r.show_stats_panel,
            r.show_series_panel && r.allow_zoom && r.allow_drag,
            !r.x_is_timestamp && !r.show_histogram && !r.show_boxplot,
    {
        ViewState {
            x_index: 0,
            use_row_index: false,
            y_indices: Vec::new(),
            dark_mode: true,
            show_help: false,
            show_grid: true,
            show_legend: true,
            show_data_table: false,
            show_stats_panel: false,
            show_series_panel: true,
            allow_zoom: true,
            allow_drag: true,
            reset_bounds: false,
            plot_mode: PlotMode::Scatter,
            line_style: LineStyle::Line,
            x_is_timestamp: false,
            show_histogram: false,
            histogram_bins: crate::constants::DEFAULT_HISTOGRAM_BINS,
            show_boxplot: false,
            downsample_threshold: crate::constants::DOWNSAMPLE_THRESHOLD,
            hovered_point: None,
            selected_point: None,
            table_hovered_row: None,
            last_selected_series: None,
        }
    }

    /// Clear all hover and selection state.
    pub fn clear_selection(&mut self)
        ensures
            *final(self) == (ViewState {
                hovered_point: None,
                selected_point: None,
                table_hovered_row: None,
                last_selected_series: None,
                ..*old(self)
            }),
    {
        self.hovered_point = None;
        self.selected_point = None;
        self.table_hovered_row = None;
        self.last_selected_series = None;
    }

    /// Ask for the plot bounds to be reset on the next frame.
    pub fn reset_plot_bounds(&mut self)
        ensures
            *final(self) == (ViewState { reset_bounds: true, ..*old(self) }),
    {
        self.reset_bounds = true;
    }

    /// Flip the theme.
    pub fn toggle_dark_mode(&mut self)
        ensures
            *final(self) == (ViewState { dark_mode: !old(self).dark_mode, ..*old(self) }),
    {
        self.dark_mode = !self.dark_mode;
    }

    /// True when at least one Y series is selected.
    pub fn has_y_series(&self) -> (r: bool)
        ensures
            r == (self.y_indices@.len() > 0),
    {
        self.y_indices.len() > 0
    }

    /// Number of selected Y series.
    pub fn y_series_count(&self) -> (r: usize)
        ensures
            r == self.y_indices@.len(),
    {
        self.y_indices.len()
    }

    /// Layout mode for a screen width in pixels: compact below 800,
    /// normal below 1200, wide above.
    pub fn get_layout_mode(screen_width: u32) -> (r: LayoutMode)
        ensures
            screen_width < 800 ==> r == LayoutMode::Compact,
            800 <= screen_width < 1200 ==> r == LayoutMode::Normal,
            screen_width >= 1200 ==> r == LayoutMode::Wide,
    {
        if screen_width < 800 {
            LayoutMode::Compact
        } else if screen_width < 1200 {
            LayoutMode::Normal
        } else {
            LayoutMode::Wide
        }
    }
}

} // verus!
