//! The platform: its display, its window, and what it refuses.
//!
//! The platform is driven by the host: running it parks the continuation of the launch
//! instead of owning a run loop. Menus, clipboard, file dialogs and credentials are not
//! there; what has to answer for them answers with an error.

use vstd::prelude::*;
use crate::display::{DisplayId, IosDisplay};
use crate::ffi::{BootParams, Host};
use crate::geometry::Size;
use crate::ieee::single::Single;
use crate::window::{HostTypes, IosWindowState, WindowAppearance};

verus! {

/// What the platform refuses.
#[derive(Clone, Copy, Debug, PartialEq, Eq, Structural)]
pub enum PlatformError {
    /// A window was asked for before the host booted the backend.
    BootParametersNotSet,
    NoFileDialogs,
    NoAppPath,
    NoAuxiliaryExecutables,
    NoCredentialStorage,
}

impl PlatformError {
    pub open spec fn text(self) -> Seq<char> {
        match self {
            PlatformError::BootParametersNotSet =>
                "gpui_ios: boot parameters not set before open_window"@,
            PlatformError::NoFileDialogs => "file dialogs are not supported on iOS"@,
            PlatformError::NoAppPath => "app_path is not available in the PoC"@,
            PlatformError::NoAuxiliaryExecutables =>
                "path_for_auxiliary_executable is not available on iOS"@,
            PlatformError::NoCredentialStorage =>
                "credential storage is not available in the PoC"@,
        }
    }

    pub fn message(&self) -> (r: &'static str)
        ensures
            r@ == self.text(),
    {
        match self {
            PlatformError::BootParametersNotSet => {
                "gpui_ios: boot parameters not set before open_window"
            },
            PlatformError::NoFileDialogs => "file dialogs are not supported on iOS",
            PlatformError::NoAppPath => "app_path is not available in the PoC",
            PlatformError::NoAuxiliaryExecutables => {
                "path_for_auxiliary_executable is not available on iOS"
            },
            PlatformError::NoCredentialStorage => "credential storage is not available in the PoC",
        }
    }
}

/// The platform.
pub struct IosPlatform<T: HostTypes> {
    pub active_display: IosDisplay,
    pub active_window: Option<T::WindowHandle>,
    pub cursor_visible: bool,
}

/// The display size in logical pixels: that of the drawable, or a phone's before boot.
pub open spec fn display_size(params: Option<BootParams>) -> Size {
    match params {
        Some(p) => crate::window::logical_size_of(p.physical_w, p.physical_h, p.scale),
        None => Size { width: Single::nearest(393real), height: Single::nearest(852real) },
    }
}

impl<T: HostTypes> IosPlatform<T> {
    /// A platform as it is built: the display of those parameters, no window.
    pub open spec fn is_fresh(self, params: Option<BootParams>) -> bool {
        &&& self.active_display.wf()
        &&& self.active_display.extent() == display_size(params)
        &&& self.active_window is None
        &&& self.cursor_visible
    }

    /// Builds the platform from the boot parameters that the host stored.
    pub fn new(params: Option<BootParams>) -> (p: Self)
        ensures
            p.is_fresh(params),
    {
        let size = match params {
            Some(p) => crate::window::logical_size(p.physical_w, p.physical_h, p.scale),
            None => Size { width: Single::from_integer(393), height: Single::from_integer(852) },
        };
        IosPlatform {
            active_display: IosDisplay::new(size.width, size.height),
            active_window: None,
            cursor_visible: true,
        }
    }

    /// Parks the continuation of the launch; the host's boot fires it.
    pub fn run(&self, host: &mut Host<T>, on_finish_launching: T::FinishLaunching)
        ensures
            *final(host) == (Host { finish_launching: Some(on_finish_launching), ..*old(host) }),
    {
        crate::ffi::store_finish_launching(host, on_finish_launching);
    }

    /// What a window is to be opened with: the boot parameters, or an error before they
    /// are set.
    pub fn open_window(&self, host: &Host<T>) -> (r: Result<BootParams, PlatformError>)
        ensures
            match host.boot_params {
                Some(params) => r == Ok::<BootParams, PlatformError>(params),
                None => r == Err::<BootParams, PlatformError>(PlatformError::BootParametersNotSet),
            },
    {
        match crate::ffi::boot_params(host) {
            Some(params) => Ok(params),
            None => Err(PlatformError::BootParametersNotSet),
        }
    }

    /// Takes over a window whose drawable was set up with those parameters: registers
    /// its state with the host and makes it the active one.
    pub fn window_opened(
        &mut self,
        host: &mut Host<T>,
        params: BootParams,
        handle: T::WindowHandle,
    )
        ensures
            *final(self) == (IosPlatform { active_window: Some(handle), ..*old(self) }),
            final(host).window matches Some(w)
                && w.is_new(params.physical_w, params.physical_h, params.scale),
            *final(host) == (Host { window: final(host).window, ..*old(host) }),
            old(host).wf() ==> final(host).wf(),
    {
        let window = IosWindowState::new(params.physical_w, params.physical_h, params.scale);
        crate::ffi::register_window(host, window);
        self.active_window = Some(handle);
    }

    pub fn primary_display(&self) -> (r: &IosDisplay)
        ensures
            *r == self.active_display,
    {
        &self.active_display
    }

    pub fn active_window(&self) -> (r: &Option<T::WindowHandle>)
        ensures
            *r == self.active_window,
    {
        &self.active_window
    }

    pub fn window_appearance(&self) -> (r: WindowAppearance)
        ensures
            r == WindowAppearance::Dark,
    {
        WindowAppearance::Dark
    }

    pub fn compositor_name(&self) -> (r: &'static str)
        ensures
            r@ == "iOS"@,
    {
        "iOS"
    }

    /// There is no cursor to hide; the platform only keeps account of it.
    pub fn hide_cursor_until_mouse_moves(&mut self)
        ensures
            *final(self) == (IosPlatform { cursor_visible: false, ..*old(self) }),
    {
        self.cursor_visible = false;
    }

    pub fn is_cursor_visible(&self) -> (r: bool)
        ensures
            r == self.cursor_visible,
    {
        self.cursor_visible
    }
}

/// Before boot the display is taken for one of 393 by 852 logical pixels; after it, the
/// logical size times the scale is the physical size, but for rounding.
pub proof fn law_display_is_the_drawable(params: BootParams)
    requires
        crate::window::laws::is_scale(params.scale),
    ensures
        display_size(None).width.value() == 393real,
        display_size(None).height.value() == 852real,
        crate::window::laws::is_scaled(
            display_size(Some(params)).width,
            params.physical_w,
            params.scale,
        ),
        crate::window::laws::is_scaled(
            display_size(Some(params)).height,
            params.physical_h,
            params.scale,
        ),
{
    Single::law_integer_exact(393);
    Single::law_integer_exact(852);
    crate::window::laws::law_logical_times_scale_is_physical(params.physical_w, params.scale);
    crate::window::laws::law_logical_times_scale_is_physical(params.physical_h, params.scale);
}

/// A platform starts with the one display, no window, and the cursor in view.
pub proof fn law_fresh_platform<T: HostTypes>(p: IosPlatform<T>, params: Option<BootParams>)
    requires
        p.is_fresh(params),
    ensures
        p.active_window is None,
        p.cursor_visible,
        p.active_display.number() == DisplayId(1),
        p.active_display.extent() == display_size(params),
{
}

} // verus!
