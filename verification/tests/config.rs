use saloon::config::{
    Environment, MemTableImplSettings, MemTableSettings, Settings, VectorMemTableSettings,
};

#[test]
fn environment_names() {
    assert_eq!(Environment::Local.as_str(), "local");
    assert_eq!(Environment::Production.as_str(), "production");
}

#[test]
fn environment_from_exact_names() {
    assert_eq!(Environment::try_from("local".to_string()), Ok(Environment::Local));
    assert_eq!(Environment::try_from("production".to_string()), Ok(Environment::Production));
}

#[test]
fn environment_ignores_case() {
    assert_eq!(Environment::try_from("LOCAL".to_string()), Ok(Environment::Local));
    assert_eq!(Environment::try_from("Production".to_string()), Ok(Environment::Production));
    assert_eq!(Environment::try_from("pRoDuCtIoN".to_string()), Ok(Environment::Production));
}

#[test]
fn environment_rejects_other_names() {
    assert_eq!(
        Environment::try_from("Staging".to_string()),
        Err("staging is not a supported environment. Use either `local` or `production`."
            .to_string())
    );
    assert_eq!(
        Environment::try_from(String::new()),
        Err(" is not a supported environment. Use either `local` or `production`.".to_string())
    );
    assert!(Environment::try_from("local ".to_string()).is_err());
}

#[test]
fn environment_from_lowercase_is_case_sensitive() {
    assert_eq!(Environment::from_lowercase("local".to_string()), Ok(Environment::Local));
    assert_eq!(
        Environment::from_lowercase("production".to_string()),
        Ok(Environment::Production)
    );
    assert_eq!(
        Environment::from_lowercase("LOCAL".to_string()),
        Err("LOCAL is not a supported environment. Use either `local` or `production`."
            .to_string())
    );
}

#[test]
fn environment_from_variable() {
    assert_eq!(Environment::from_variable(None), Ok(Environment::Local));
    assert_eq!(
        Environment::from_variable(Some("PRODUCTION".to_string())),
        Ok(Environment::Production)
    );
    assert!(Environment::from_variable(Some("test".to_string())).is_err());
}

#[test]
fn environment_file_names() {
    assert_eq!(Environment::Local.file_name(), "local.yaml");
    assert_eq!(Environment::Production.file_name(), "production.yaml");
}

#[test]
fn vector_settings_default() {
    assert_eq!(VectorMemTableSettings::default().initial_vec_size, 1024);
}

#[test]
fn mem_table_settings_default() {
    let settings = MemTableSettings::default();
    assert_eq!(settings.write_buffer_size_in_mb, 0);
    match settings.table_impl {
        MemTableImplSettings::VectorMemTable(vector) => {
            assert_eq!(vector.initial_vec_size, 1024)
        }
    }
}

#[test]
fn settings_hold_their_parts() {
    let settings = Settings {
        mem_table: MemTableImplSettings::VectorMemTable(VectorMemTableSettings {
            initial_vec_size: 8,
        }),
        env: Environment::Production,
    };
    let copy = settings.clone();
    assert_eq!(copy.env, Environment::Production);
    match copy.mem_table {
        MemTableImplSettings::VectorMemTable(vector) => assert_eq!(vector.initial_vec_size, 8),
    }
}
