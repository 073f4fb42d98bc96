use arroyo_control::prql::{
    is_prql_query, post_process_sql, process_connectors, process_time_functions,
    process_window_functions, prql_to_sql, PrqlCache, PrqlError,
};

#[test]
fn test_basic_test_is_prql_query() {
    assert!(is_prql_query("from employees"));
    assert!(is_prql_query("let x = 1\nfrom employees"));
    assert!(is_prql_query("from employees | filter age > 30"));
    assert!(is_prql_query("from employees\nfilter age > 30"));

    assert!(!is_prql_query("SELECT * FROM employees"));
    assert!(!is_prql_query("CREATE TABLE employees (id INT)"));
    assert!(!is_prql_query("INSERT INTO employees VALUES (1, 'John')"));
}

#[test]
fn tests_test_is_prql_query() {
    assert!(is_prql_query("from employees"));
    assert!(is_prql_query("let x = 1\nfrom employees"));
    assert!(is_prql_query("from employees | filter age > 30"));
    assert!(is_prql_query("from employees\nfilter age > 30"));

    assert!(!is_prql_query("SELECT * FROM employees"));
    assert!(!is_prql_query("CREATE TABLE employees (id INT)"));
    assert!(!is_prql_query("INSERT INTO employees VALUES (1, 'John')"));
}

#[test]
fn test_basic_test_simple_prql_to_sql() {
    let prql = "from employees | filter age > 30 | select {name, age}";

    let result = prql_to_sql(prql);
    assert!(result.is_ok());

    let sql = result.unwrap();
    assert!(sql.contains("SELECT"));
    assert!(sql.contains("name"));
    assert!(sql.contains("age"));
    assert!(sql.contains("FROM"));
    assert!(sql.contains("employees"));
    assert!(sql.contains("WHERE"));
}

#[test]
fn tests_test_simple_prql_to_sql() {
    let prql = "from employees | filter age > 30 | select {name, age}";
    let expected_sql = "SELECT name, age FROM employees WHERE age > 30";

    let sql = prql_to_sql(prql).unwrap();
    let sql = sql.split_whitespace().collect::<Vec<_>>().join(" ");
    let expected_sql = expected_sql.split_whitespace().collect::<Vec<_>>().join(" ");

    assert_eq!(sql, expected_sql);
}

#[test]
fn test_basic_test_prql_with_aggregation() {}

#[test]
fn test_basic_test_prql_with_window_functions() {}

#[test]
fn test_basic_test_prql_with_joins() {
    let prql = "from employees
    join departments (==department_id)
    select {employees.name, departments.name}";

    let result = prql_to_sql(prql);
    assert!(result.is_ok());

    let sql = result.unwrap();
    assert!(sql.contains("SELECT"));
    assert!(sql.contains("JOIN"));
    assert!(sql.contains("ON"));
}

#[test]
fn test_basic_test_prql_with_variables() {
    let prql = "
        let min_age = 30
        let max_salary = 100000

        from employees
        filter age > min_age && salary < max_salary
        select {name, age, salary}
    ";

    let result = prql_to_sql(prql);
    assert!(result.is_ok());

    let sql = result.unwrap();
    assert!(sql.contains("SELECT"));
    assert!(sql.contains("WHERE"));
    assert!(sql.contains("30"));
    assert!(sql.contains("100000"));
}

#[test]
fn test_basic_test_invalid_prql() {
    let prql = "from employees | invalid_operator";

    let result = prql_to_sql(prql);
    assert!(result.is_err());
}

#[test]
fn tests_test_invalid_prql() {
    let prql = "from employees | invalid_operator";

    let result = prql_to_sql(prql);
    assert!(result.is_err());
}

#[test]
fn test_post_process_sql_identity() {
    let sql = "SELECT * FROM employees WHERE age > 30";
    let processed = post_process_sql(sql).unwrap();
    assert_eq!(processed, sql);
}

#[test]
fn each_processing_step_keeps_the_sql() {
    let sql = "SELECT a FROM t";
    assert_eq!(process_window_functions(sql).unwrap(), sql);
    assert_eq!(process_time_functions(sql).unwrap(), sql);
    assert_eq!(process_connectors(sql).unwrap(), sql);
}

#[test]
fn prql_detection_edge_cases() {
    assert!(is_prql_query("   \n  prql target:sql.postgres\nfrom t"));
    assert!(is_prql_query("x | y"));
    assert!(!is_prql_query("x | y FROM z"));
    assert!(is_prql_query("SELECT a FROM t -- group by"));
    assert!(!is_prql_query(""));
    assert!(!is_prql_query("   "));
}

#[test]
fn invalid_prql_is_a_compilation_error() {
    match prql_to_sql("from employees | invalid_operator") {
        Err(PrqlError::CompilationError(_)) => {}
        other => panic!("unexpected result: {:?}", other),
    }
}

#[test]
fn error_messages() {
    assert_eq!(
        PrqlError::CompilationError("bad".to_string()).message(),
        "PRQL compilation error: bad"
    );
    assert_eq!(
        PrqlError::PostProcessingError("x".to_string()).message(),
        "SQL post-processing error: x"
    );
    assert_eq!(PrqlError::ArroyoFeatureError("y".to_string()).message(), "Arroyo feature error: y");
    assert_eq!(PrqlError::Other("z".to_string()).message(), "Other error: z");
}


#[test]
fn test_cache_functionality() {
    let mut cache = PrqlCache::new();
    let query = "from events\nselect {user_id, event_time}";
    let result1 = cache.prql_to_sql(query).unwrap();
    let cached = cache.get_from_cache(query);
    assert!(cached.is_some(), "Query should be in cache after first conversion");
    assert_eq!(cached.unwrap(), result1, "Cached result should match first conversion");
    let result2 = cache.prql_to_sql(query).unwrap();
    assert_eq!(result1, result2, "Results should be identical");
    let custom_query = "from test\nselect {id}";
    let custom_sql = "SELECT id FROM test";
    cache.add_to_cache(custom_query, custom_sql);
    let cached_custom = cache.get_from_cache(custom_query);
    assert!(cached_custom.is_some(), "Custom query should be in cache");
    assert_eq!(cached_custom.unwrap(), custom_sql, "Cached result should match custom SQL");
}
