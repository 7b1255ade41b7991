use kernelkit::kernel::client::{keeps_polling, next_execution_count, status_display};
use kernelkit::kernel::errors::KernelError;
use kernelkit::kernel::senders::{DatabricksCommandStatusSender, DatabricksContextCreateSender};
use kernelkit::linux::{allocation_outcome, deallocation_outcome, MemoryAddress, MemoryAllocation, MemoryDeallocation, MemorySlicing};
use kernelkit::memory::{memcpy_unsafe, memcpy_unsafe_overlapped};
use kernelkit::nfa::Builder;
use kernelkit::proc::ProcessArguments;
use kernelkit::radix::{first_unsorted, radix_sort};
use kernelkit::regex::pages::Naive64Pages;
use kernelkit::rpn::RPN;
use kernelkit::runtime::pool::{execute_outcome, submit_outcome, IORuntimePool, IORuntimePoolExecute, IORuntimePoolSubmit};
use kernelkit::runtime::refs::IORingCompleterRef;
use kernelkit::sha1::Sha1;

fn sha1_of(message: &[u8]) -> [u32; 5] {
    let mut data = message.to_vec();
    let len = data.len();
    let sha = Sha1::new().update(&data, len);
    let rest = len % 64;
    let mut buffer = vec![0u8; 64];
    buffer[..rest].copy_from_slice(&data[len - rest..]);
    data.clear();
    sha.finalize(&mut buffer, rest, len as u64)
}

#[test]
fn sha1_of_abc() {
    assert_eq!(sha1_of(b"abc"), [0xa9993e36, 0x4706816a, 0xba3e2571, 0x7850c26c, 0x9cd0d89d]);
}

#[test]
fn sha1_of_empty_message() {
    assert_eq!(sha1_of(b""), [0xda39a3ee, 0x5e6b4b0d, 0x3255bfef, 0x95601890, 0xafd80709]);
}

#[test]
fn sha1_of_two_blocks() {
    let message = b"abcdbcdecdefdefgefghfghighijhijkijkljklmklmnlmnomnopnopq";
    assert_eq!(sha1_of(message), [0x84983e44, 0x1c3bd26e, 0xbaae4aa1, 0xf95129e5, 0xe54670f1]);
}

#[test]
fn sha1_of_a_million_a() {
    let message = vec![b'a'; 1_000_000];
    assert_eq!(sha1_of(&message), [0x34aa973c, 0xd4c4daa4, 0xf61eeb2b, 0xdbad2731, 0x6534016f]);
}

#[test]
fn radix_sort_orders_keys_and_carries_values() {
    let keys: Vec<u64> = vec![9, 3, 0xffff_ffff_ffff_ffff, 3, 0, 1 << 40, 7];
    let values: Vec<u32> = vec![0, 1, 2, 3, 4, 5, 6];

    for width in [4u64, 8, 12, 16] {
        let (sorted, moved) = radix_sort(keys.clone(), values.clone(), width);
        assert_eq!(sorted, vec![0, 3, 3, 7, 9, 1 << 40, 0xffff_ffff_ffff_ffff]);
        assert_eq!(moved, vec![4, 1, 3, 6, 0, 5, 2]);
        assert_eq!(first_unsorted(&sorted), None);
    }
}

#[test]
fn radix_sort_of_nothing() {
    let (sorted, moved) = radix_sort(Vec::new(), Vec::new(), 8);
    assert!(sorted.is_empty());
    assert!(moved.is_empty());
}

#[test]
fn first_unsorted_finds_the_first_drop() {
    assert_eq!(first_unsorted(&vec![1, 2, 2, 1, 0]), Some(3));
    assert_eq!(first_unsorted(&vec![5]), None);
    assert_eq!(first_unsorted(&vec![]), None);
}

#[test]
fn completer_survives_encoding() {
    let completer = IORingCompleterRef::new(0x1234, 0xdead_beef);
    let decoded = IORingCompleterRef::decode(completer.encode());

    assert_eq!(completer.encode(), 0xdead_beef_0000_1234);
    assert_eq!(decoded.cid(), 0xdead_beef);
    assert_eq!(decoded.cidx(), 0x1234);
}

#[test]
fn memory_slices_between_bounds() {
    let address = MemoryAddress { ptr: 0x1000, len: 64 };

    assert!(matches!(address.between(8, 16), MemorySlicing::Succeeded(slice) if slice.ptr == 0x1008 && slice.len == 8));
    assert!(matches!(address.between(16, 8), MemorySlicing::InvalidParameters()));
    assert!(matches!(address.between(8, 65), MemorySlicing::OutOfRange()));
}

#[test]
fn memory_outcomes_follow_the_returned_value() {
    assert!(matches!(allocation_outcome(0x2000, 32), MemoryAllocation::Succeeded(a) if a.ptr == 0x2000 && a.len == 32));
    assert!(matches!(allocation_outcome(-12, 32), MemoryAllocation::Failed(-12)));
    assert!(matches!(deallocation_outcome(0), MemoryDeallocation::Succeeded()));
    assert!(matches!(deallocation_outcome(-22), MemoryDeallocation::Failed(-22)));
}

#[test]
fn memcpy_copies_a_prefix() {
    let src: Vec<u8> = (0u8..40).collect();
    let mut dst = vec![0xffu8; 45];

    memcpy_unsafe(&src, &mut dst, 37);
    assert_eq!(&dst[..37], &src[..37]);
    assert_eq!(&dst[37..], &[0xff; 8]);

    let mut dst = vec![0xeeu8; 10];
    memcpy_unsafe_overlapped(&src, &mut dst, 7);
    assert_eq!(&dst[..7], &src[..7]);
    assert_eq!(&dst[7..], &[0xee; 3]);
}

#[test]
fn process_arguments_compare_and_select() {
    let args = ProcessArguments::new(vec![b"app".to_vec(), b"radix8".to_vec()]);
    let choices: [&[u8]; 3] = [b"radix4", b"radix8", b"builtin"];

    assert!(args.is(1, b"radix8"));
    assert!(!args.is(1, b"radix4"));
    assert_eq!(args.select(1, &choices), Some(&b"radix8"[..]));
    assert_eq!(args.select(2, &choices), None);
}

#[test]
fn senders_name_themselves_when_incomplete() {
    let sender = DatabricksContextCreateSender::new().with_cluster_id("cluster");
    assert!(matches!(sender.payload(), Err(KernelError::PayloadIncomplete { content }) if content == "DatabricksContextCreateSender"));

    let sender = sender.with_language("python");
    assert!(matches!(sender.payload(), Ok((cluster, language)) if cluster == "cluster" && language == "python"));

    let status = DatabricksCommandStatusSender::new().with_cluster_id("c").with_context_id("x").with_command_id("y");
    assert!(matches!(status.payload(), Ok((a, b, c)) if a == "c" && b == "x" && c == "y"));
}

#[test]
fn command_status_decides_the_display() {
    let finished = String::from("Finished");
    let running = String::from("Running");
    let reply = String::from("{...}");

    let shown = status_display(&finished, true, &Some(String::from("42")), &Some(String::from("<b>")), &reply);
    assert_eq!(shown, (String::from("text/plain"), finished.clone(), String::from("42")));

    let shown = status_display(&finished, true, &None, &Some(String::from("<b>")), &reply);
    assert_eq!(shown, (String::from("text/html"), finished.clone(), String::from("<b>")));

    let shown = status_display(&finished, true, &None, &None, &reply);
    assert_eq!(shown, (String::from("text/plain"), finished.clone(), reply.clone()));

    let shown = status_display(&running, true, &Some(String::from("42")), &None, &reply);
    assert_eq!(shown, (String::from("text/plain"), running.clone(), running.clone()));

    assert!(keeps_polling(&running));
    assert!(keeps_polling(&String::from("Queued")));
    assert!(!keeps_polling(&finished));
    assert_eq!(next_execution_count(41), 42);
}

#[test]
fn pool_hands_a_released_worker_to_the_queue() {
    let mut pool = IORuntimePool::new(3, 4);

    let slot = pool.execute_slot().unwrap();
    pool.executed(slot, 0xabc);
    assert_eq!(pool.execute_slot(), None);

    pool.queue();
    assert_eq!(pool.dequeue(), None);
    assert_eq!(pool.release(0x123), None);
    assert_eq!(pool.release(0xabc), Some(slot));
    assert_eq!(pool.dequeue(), Some(slot));
    assert_eq!(pool.dequeue(), None);
}

#[test]
fn nfa_of_a_one_byte_literal() {
    let mut allocator = Naive64Pages::new();
    let builder = Builder::new(&mut allocator).unwrap();
    let nfa = builder.build(RPN::from_bytes(b"l1x")).unwrap();

    assert_eq!(nfa.transition_count(), 5);
    assert_eq!(nfa.epsilon_count(), 4);
    assert_eq!(nfa.transition_find(0, 0), Some((0x00, 0x00)));
    assert_eq!(nfa.epsilon_items_get(0x00, 0), 2);
    assert_eq!(nfa.transition_find(3, b'x'), Some((4, 0x02)));
    assert_eq!(nfa.transition_find(3, b'y'), None);
    assert_eq!(nfa.transition_find(4, 0), Some((0x0e, 0x00)));
    assert_eq!(nfa.epsilon_items_get(0x0e, 0), 1);
}

#[test]
fn radix_sort_keeps_equal_keys_in_input_order() {
    let keys: Vec<u64> = vec![5, 3, 5, 1, 3, 5, 0xffff_0000_0000_0003, 3];
    let values: Vec<u32> = (0..keys.len() as u32).collect();
    for width in [4u64, 8, 12, 16] {
        let (sorted, order) = radix_sort(keys.clone(), values.clone(), width);
        assert_eq!(sorted, vec![1, 3, 3, 3, 5, 5, 5, 0xffff_0000_0000_0003]);
        assert_eq!(order, vec![3, 1, 4, 7, 0, 2, 5, 6]);
    }
}

#[test]
fn pool_execute_outcome_follows_the_first_failing_step() {
    assert!(matches!(execute_outcome(false, true, false, false), IORuntimePoolExecute::Queued()));
    assert!(matches!(execute_outcome(false, false, true, true), IORuntimePoolExecute::ScheduleFailed()));
    assert!(matches!(execute_outcome(true, false, true, true), IORuntimePoolExecute::ScheduleFailed()));
    assert!(matches!(execute_outcome(true, true, false, true), IORuntimePoolExecute::InternallyFailed()));
    assert!(matches!(execute_outcome(true, true, true, false), IORuntimePoolExecute::ExecutionFailed()));
    assert!(matches!(execute_outcome(true, true, true, true), IORuntimePoolExecute::Executed()));
}

#[test]
fn pool_submit_outcome_follows_the_first_failing_step() {
    assert!(matches!(submit_outcome(false, false, false), IORuntimePoolSubmit::Succeeded()));
    assert!(matches!(submit_outcome(true, false, true), IORuntimePoolSubmit::InternallyFailed()));
    assert!(matches!(submit_outcome(true, true, false), IORuntimePoolSubmit::ExecutionFailed()));
    assert!(matches!(submit_outcome(true, true, true), IORuntimePoolSubmit::Succeeded()));
}
