use geo_renderer::config::{ConfigError, StorageConfig};

fn config_in(surface: &str, alti: &str, image: &str) -> StorageConfig {
    StorageConfig {
        surface_dir: surface.to_string(),
        alti_dir: alti.to_string(),
        image_dir: image.to_string(),
        image_max_lod: 0,
    }
}

#[test]
fn check_access_reports_first_missing_directory() {
    assert_eq!(StorageConfig::check_access(true, true, true), Ok(()));
    assert_eq!(
        StorageConfig::check_access(false, false, false),
        Err(ConfigError::SurfaceDirMissing)
    );
    assert_eq!(
        StorageConfig::check_access(true, false, false),
        Err(ConfigError::AltiDirMissing)
    );
    assert_eq!(
        StorageConfig::check_access(true, true, false),
        Err(ConfigError::ImageDirMissing)
    );
}

#[test]
fn validate_accepts_directories_that_exist() {
    let config = config_in("/", "/", "/");
    assert_eq!(config.validate(), Ok(()));
}

#[test]
fn validate_names_the_missing_directory() {
    let missing = "/no/such/directory/for/rasters";
    assert_eq!(
        config_in(missing, "/", "/").validate(),
        Err(ConfigError::SurfaceDirMissing)
    );
    assert_eq!(
        config_in("/", missing, "/").validate(),
        Err(ConfigError::AltiDirMissing)
    );
    assert_eq!(
        config_in("/", "/", missing).validate(),
        Err(ConfigError::ImageDirMissing)
    );
}

#[test]
fn error_messages_name_the_data_set() {
    assert_eq!(
        ConfigError::SurfaceDirMissing.message(),
        "Unable to access swisstopo surface model dir"
    );
    assert_eq!(
        ConfigError::AltiDirMissing.message(),
        "Unable to access swisstopo altitude model dir"
    );
    assert_eq!(
        ConfigError::ImageDirMissing.message(),
        "Unable to access swisstopo ortho image dir"
    );
}
