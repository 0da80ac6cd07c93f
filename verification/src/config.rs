//! Where the elevation and image data of a run live.

use vstd::prelude::*;

verus! {

/// Directories of the raster data, and the finest image level in use.
#[derive(Clone, Debug)]
pub struct StorageConfig {
    /// Directory of the surface model rasters.
    pub surface_dir: String,
    /// Directory of the bare-ground altitude rasters.
    pub alti_dir: String,
    /// Directory of the orthoimages.
    pub image_dir: String,
    /// Finest orthoimage level of detail to load; level zero is the full
    /// image, each further level halves its side.
    pub image_max_lod: usize,
}

/// Why a storage configuration cannot be used.
#[derive(Debug, Copy, Clone, PartialEq, Eq, Structural)]
pub enum ConfigError {
    SurfaceDirMissing,
    AltiDirMissing,
    ImageDirMissing,
}

impl ConfigError {
    /// The sentence shown to the user for this error.
    pub fn message(&self) -> (text: String)
        ensures
            *self == ConfigError::SurfaceDirMissing ==> text@
                == "Unable to access swisstopo surface model dir"@,
            *self == ConfigError::AltiDirMissing ==> text@
                == "Unable to access swisstopo altitude model dir"@,
            *self == ConfigError::ImageDirMissing ==> text@
                == "Unable to access swisstopo ortho image dir"@,
    {
        match self {
            ConfigError::SurfaceDirMissing => "Unable to access swisstopo surface model dir".to_owned(),
            ConfigError::AltiDirMissing => "Unable to access swisstopo altitude model dir".to_owned(),
            ConfigError::ImageDirMissing => "Unable to access swisstopo ortho image dir".to_owned(),
        }
    }
}

/// Asks the file system whether something exists at `path`, through
/// `std::path::Path::exists`. The answer depends on the disk at the time of
/// the call, so nothing is claimed of it.
#[verifier::external_body]
fn path_exists(path: &String) -> (found: bool) {
    std::path::Path::new(path).exists()
}

impl StorageConfig {
    /// The verdict on a configuration, given which of its directories exist:
    /// the first missing one, in the order surface, altitude, image, is
    /// reported; with all three present the configuration is accepted.
    pub open spec fn spec_check_access(
        surface_found: bool,
        alti_found: bool,
        image_found: bool,
    ) -> Result<(), ConfigError> {
        if !surface_found {
            Err(ConfigError::SurfaceDirMissing)
        } else if !alti_found {
            Err(ConfigError::AltiDirMissing)
        } else if !image_found {
            Err(ConfigError::ImageDirMissing)
        } else {
            Ok(())
        }
    }

    /// The verdict on a configuration, given which of its directories exist.
    pub fn check_access(surface_found: bool, alti_found: bool, image_found: bool) -> (verdict:
        Result<(), ConfigError>)
        ensures
            verdict == Self::spec_check_access(surface_found, alti_found, image_found),
    {
        if !surface_found {
            Err(ConfigError::SurfaceDirMissing)
        } else if !alti_found {
            Err(ConfigError::AltiDirMissing)
        } else if !image_found {
            Err(ConfigError::ImageDirMissing)
        } else {
            Ok(())
        }
    }

    /// Looks for the three directories on disk and gives the verdict of
    /// `check_access` on what was found. What is found depends on the disk,
    /// so the verdict is pinned down by `check_access` alone.
    pub fn validate(&self) -> (verdict: Result<(), ConfigError>) {
        let surface_found = path_exists(&self.surface_dir);
        let alti_found = path_exists(&self.alti_dir);
        let image_found = path_exists(&self.image_dir);
        Self::check_access(surface_found, alti_found, image_found)
    }
}

} // verus!
