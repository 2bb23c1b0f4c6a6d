use ocdscardinal::queue::Job;

#[test]
fn outputs_follow_the_order_of_tasks() {
    let mut job = Job::new();
    let mut written: Vec<u8> = Vec::new();
    let first = job.new_task();
    let second = job.new_task();
    let third = job.new_task();
    written.extend(job.write(&second, b"b1"));
    written.extend(job.write(&third, b"c"));
    written.extend(job.write(&first, b"a1"));
    assert_eq!(written, b"a1".to_vec());
    written.extend(job.close(second));
    assert_eq!(written, b"a1".to_vec());
    written.extend(job.write(&first, b"a2"));
    written.extend(job.close(first));
    assert_eq!(written, b"a1a2b1c".to_vec());
    written.extend(job.write(&third, b"d"));
    written.extend(job.close(third));
    assert_eq!(written, b"a1a2b1cd".to_vec());
}

#[test]
fn front_task_writes_through() {
    let mut job = Job::new();
    let task = job.new_task();
    assert_eq!(job.write(&task, b"x"), b"x".to_vec());
    assert_eq!(job.close(task), Vec::<u8>::new());
    let later = job.new_task();
    assert_eq!(job.write(&later, b"y"), b"y".to_vec());
    assert_eq!(job.close(later), Vec::<u8>::new());
}

#[test]
fn buffered_task_waits_for_earlier_tasks() {
    let mut job = Job::new();
    let first = job.new_task();
    let second = job.new_task();
    assert_eq!(job.write(&second, b"later"), Vec::<u8>::new());
    assert_eq!(job.close(second), Vec::<u8>::new());
    assert_eq!(job.close(first), b"later".to_vec());
}

#[test]
fn first_task_writes_through_while_later_task_waits() {
    let mut job = Job::new();
    let t0 = job.new_task();
    let t1 = job.new_task();
    assert_eq!(job.write(&t1, b"yz"), Vec::<u8>::new());
    assert_eq!(job.write(&t0, b"x"), b"x".to_vec());
    assert_eq!(job.close(t0), b"yz".to_vec());
    assert_eq!(job.close(t1), Vec::<u8>::new());
}
